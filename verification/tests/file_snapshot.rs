use fastctx::encoding::pipeline::{validate_source_encoding, EncodingDecision};
use fastctx::encoding::rejection::EncodingRejection;
use fastctx::operation::{Uninterrupted, WorkCheckpoint, WorkCtx, WorkStage, WorkStop};
use fastctx::snapshot::capture::{
    checkpoint, prefer_stop, settle_capture, CaptureDisposition, CaptureFailure, CaptureRead,
    CaptureReader, CaptureStep, CapturedSnapshot, RangeError, SnapshotBuilder, StoreStep,
    MEMORY_SNAPSHOT_LIMIT, SNAPSHOT_CHUNK_BYTES,
};
use fastctx::snapshot::classifier::{FallbackTerminalState, TerminalProof, PREFLIGHT_BYTES};
use fastctx::snapshot::identity::{
    is_stable, may_capture, FileIdentity, FileIdentityHint, Observation, UnixState, WindowsFileId,
    WindowsHandleFacts, WindowsState, ERROR_INVALID_PARAMETER, ERROR_NOT_SUPPORTED,
};
use std::cell::Cell;
use std::io::{Read, Write};

struct ChunkedReader {
    bytes: Vec<u8>,
    position: usize,
    maximum: usize,
    fail_at: Option<usize>,
    reads: usize,
    requested: Vec<usize>,
    read_limits: Option<Vec<usize>>,
}

impl ChunkedReader {
    fn new(bytes: Vec<u8>, maximum: usize) -> Self {
        Self {
            bytes,
            position: 0,
            maximum,
            fail_at: None,
            reads: 0,
            requested: Vec::new(),
            read_limits: None,
        }
    }

    fn with_read_limits(mut self, read_limits: Vec<usize>) -> Self {
        self.read_limits = Some(read_limits);
        self
    }

    fn read(&mut self, wanted: usize) -> Result<Vec<u8>, String> {
        self.reads += 1;
        self.requested.push(wanted);
        if self.fail_at.is_some_and(|offset| self.position >= offset) {
            return Err("injected read failure".to_string());
        }
        if self.position >= self.bytes.len() {
            return Ok(Vec::new());
        }
        let read_limit = self.read_limits.as_ref().map_or(self.maximum, |limits| {
            limits[(self.reads - 1) % limits.len()]
        });
        let count = wanted
            .min(self.maximum)
            .min(read_limit)
            .min(self.bytes.len() - self.position);
        let chunk = self.bytes[self.position..self.position + count].to_vec();
        self.position += count;
        Ok(chunk)
    }
}

fn store(
    step: StoreStep,
    chunk: &[u8],
    files: &mut Vec<tempfile::NamedTempFile>,
) -> Result<(), CaptureFailure<String>> {
    match step {
        StoreStep::Kept => {}
        StoreStep::Promote(held) => {
            let mut file = tempfile::NamedTempFile::new().unwrap();
            file.write_all(&held).unwrap();
            file.write_all(chunk).unwrap();
            files.push(file);
        }
        StoreStep::Write => files.last_mut().unwrap().write_all(chunk).unwrap(),
    }
    Ok(())
}

fn capture<W: WorkCheckpoint>(
    reader: &mut ChunkedReader,
    explicit: Option<&str>,
    fallback: Option<&str>,
    work: &W,
    files: &mut Vec<tempfile::NamedTempFile>,
) -> Result<CaptureRead, CaptureFailure<String>> {
    let mut capture = CaptureReader::new(explicit, fallback);
    loop {
        let wanted = capture.before_read(work)?;
        let outcome = reader.read(wanted);
        let step = match &outcome {
            Ok(chunk) => capture.after_read(Ok(chunk.as_slice()), work)?,
            Err(error) => capture.after_read(Err(error.clone()), work)?,
        };
        match step {
            CaptureStep::Stop(reason) => {
                files.clear();
                return Ok(CaptureRead::Terminal(reason));
            }
            CaptureStep::Store(step) => store(step, &outcome.unwrap(), files)?,
            CaptureStep::Finish => return Ok(capture.finish()),
        }
    }
}

struct StopOnCheck {
    checks: Cell<usize>,
    stop_on: usize,
    stop: WorkStop,
}

impl StopOnCheck {
    fn new(stop_on: usize, stop: WorkStop) -> Self {
        Self {
            checks: Cell::new(0),
            stop_on,
            stop,
        }
    }

    fn checks(&self) -> usize {
        self.checks.get()
    }
}

impl WorkCheckpoint for StopOnCheck {
    fn never_stops(&self) -> bool {
        false
    }

    fn always_stops(&self) -> bool {
        false
    }

    fn stops_with(&self, _stop: WorkStop) -> bool {
        true
    }

    fn check_stop(&self) -> Result<(), WorkStop> {
        self.checks.set(self.checks.get() + 1);
        if self.checks.get() >= self.stop_on {
            Err(self.stop)
        } else {
            Ok(())
        }
    }

    fn check_work(&self, _stage: WorkStage) -> Result<(), WorkStop> {
        self.check_stop()
    }
}

struct CancelAt {
    stage: WorkStage,
    entered: Cell<usize>,
    cancels: bool,
}

impl CancelAt {
    fn new(stage: WorkStage, cancels: bool) -> Self {
        Self {
            stage,
            entered: Cell::new(0),
            cancels,
        }
    }
}

impl WorkCheckpoint for CancelAt {
    fn never_stops(&self) -> bool {
        false
    }

    fn always_stops(&self) -> bool {
        false
    }

    fn stops_with(&self, _stop: WorkStop) -> bool {
        true
    }

    fn check_stop(&self) -> Result<(), WorkStop> {
        if self.cancels && self.entered.get() > 0 {
            Err(WorkStop::RequestCancelled)
        } else {
            Ok(())
        }
    }

    fn check_work(&self, stage: WorkStage) -> Result<(), WorkStop> {
        if stage == self.stage {
            self.entered.set(self.entered.get() + 1);
        }
        self.check_stop()
    }
}

#[derive(Debug, Eq, PartialEq)]
enum ReferenceDisposition {
    Text { used_fallback: bool },
    Binary,
    Rejected(EncodingRejection),
}

fn reference_disposition(
    bytes: &[u8],
    explicit: Option<&str>,
    fallback: Option<&str>,
) -> ReferenceDisposition {
    match validate_source_encoding(bytes, explicit) {
        EncodingDecision::Text(_) => ReferenceDisposition::Text {
            used_fallback: false,
        },
        EncodingDecision::Binary => ReferenceDisposition::Binary,
        EncodingDecision::Rejected(rejection) => match fallback {
            Some(fallback)
                if explicit.is_none()
                    && !matches!(rejection, EncodingRejection::BomMismatch { .. })
                    && matches!(
                        validate_source_encoding(bytes, Some(fallback)),
                        EncodingDecision::Text(_)
                    ) =>
            {
                ReferenceDisposition::Text {
                    used_fallback: true,
                }
            }
            _ => ReferenceDisposition::Rejected(rejection),
        },
    }
}

fn proof_disposition(proof: &TerminalProof) -> ReferenceDisposition {
    proof
        .rejection()
        .map_or(ReferenceDisposition::Binary, ReferenceDisposition::Rejected)
}

fn mixed_prefix() -> Vec<u8> {
    let mut bytes = "界".repeat(11).into_bytes();
    bytes.push(0xFF);
    bytes.resize(PREFLIGHT_BYTES, b'a');
    bytes
}

fn late_magic_proof_bytes() -> Vec<u8> {
    let mut bytes = vec![b'a'; MEMORY_SNAPSHOT_LIMIT + SNAPSHOT_CHUNK_BYTES + 1];
    bytes[..2].copy_from_slice(b"MZ");
    *bytes.last_mut().unwrap() = 0xFF;
    bytes
}

struct VirtualNulReader {
    len: usize,
    nul_offset: usize,
    position: usize,
    requested: Vec<usize>,
}

impl VirtualNulReader {
    fn read(&mut self, wanted: usize) -> Vec<u8> {
        self.requested.push(wanted);
        assert!(
            self.position < PREFLIGHT_BYTES,
            "the NUL proof illegally observed the virtual suffix"
        );
        let count = wanted.min(self.len - self.position);
        let mut output = vec![b'a'; count];
        let end = self.position + count;
        if (self.position..end).contains(&self.nul_offset) {
            output[self.nul_offset - self.position] = 0;
        }
        self.position = end;
        output
    }
}

#[test]
fn fifty_mib_nul_proof_reads_only_the_frozen_probe_and_never_creates_temp() {
    for nul_offset in [0, PREFLIGHT_BYTES - 1] {
        let mut reader = VirtualNulReader {
            len: 50 * 1024 * 1024,
            nul_offset,
            position: 0,
            requested: Vec::new(),
        };
        let mut files = Vec::new();
        let mut capture = CaptureReader::new(None, None);
        let result = loop {
            let wanted = capture.before_read::<String, _>(&Uninterrupted).unwrap();
            let chunk = reader.read(wanted);
            match capture
                .after_read::<String, _>(Ok(chunk.as_slice()), &Uninterrupted)
                .unwrap()
            {
                CaptureStep::Stop(reason) => break CaptureRead::Terminal(reason),
                CaptureStep::Store(step) => store(step, &chunk, &mut files).unwrap(),
                CaptureStep::Finish => break capture.finish(),
            }
        };
        assert!(matches!(
            result,
            CaptureRead::Terminal(TerminalProof::NulWithinFrozenProbe)
        ));
        assert!(reader.position <= PREFLIGHT_BYTES);
        assert!(reader
            .requested
            .iter()
            .all(|requested| *requested <= PREFLIGHT_BYTES));
        assert_eq!(files.len(), 0);
    }
}

#[test]
fn a_fault_before_terminal_proof_remains_the_precise_io_failure() {
    let mut bytes = vec![b'a'; PREFLIGHT_BYTES];
    bytes[PREFLIGHT_BYTES - 1] = 0;
    let mut reader = ChunkedReader::new(bytes, 127);
    reader.fail_at = Some(127);
    let failure = match capture(&mut reader, None, None, &Uninterrupted, &mut Vec::new()) {
        Err(failure) => failure,
        Ok(_) => panic!("expected original-reader IO failure"),
    };
    let CaptureFailure::Io(error) = failure else {
        panic!("expected original-reader IO failure");
    };
    assert_eq!(error, "injected read failure");
}

#[test]
fn explicit_encoding_and_unicode_boms_bypass_the_nul_terminal() {
    for (bytes, explicit) in [
        (b"\0plain".as_slice(), Some("utf-8")),
        (b"\xFF\xFEA\0".as_slice(), None),
        (b"\xFE\xFF\0A".as_slice(), None),
        (b"\xFF\xFE\0\0A\0\0\0".as_slice(), None),
        (b"\0\0\xFE\xFF\0\0\0A".as_slice(), None),
    ] {
        let mut reader = ChunkedReader::new(bytes.to_vec(), 2);
        assert!(matches!(
            capture(&mut reader, explicit, None, &Uninterrupted, &mut Vec::new()).unwrap(),
            CaptureRead::Complete(_)
        ));
    }

    let mut utf8_bom = ChunkedReader::new(b"\xEF\xBB\xBF\0text".to_vec(), 8);
    assert!(matches!(
        capture(&mut utf8_bom, None, None, &Uninterrupted, &mut Vec::new()).unwrap(),
        CaptureRead::Terminal(TerminalProof::NulWithinFrozenProbe)
    ));
}

#[test]
fn nul_at_offset_8192_is_outside_the_frozen_probe() {
    let mut bytes = vec![b'a'; PREFLIGHT_BYTES + 1];
    bytes[PREFLIGHT_BYTES] = 0;
    let mut reader = ChunkedReader::new(bytes, 113);
    assert!(matches!(
        capture(&mut reader, None, None, &Uninterrupted, &mut Vec::new()).unwrap(),
        CaptureRead::Complete(_)
    ));
}

#[test]
fn every_production_terminal_proof_is_suffix_invariant_against_the_reference() {
    let cases = [
        (
            "nul",
            vec![b'a', 0, b'b', b'c'],
            None,
            None,
            TerminalProof::NulWithinFrozenProbe,
        ),
        (
            "binary magic",
            {
                let mut bytes = b"\x1F\x8B".to_vec();
                bytes.resize(PREFLIGHT_BYTES, b'a');
                bytes
            },
            None,
            None,
            TerminalProof::BinaryMagicAfterUtf8Failure,
        ),
        (
            "explicit malformed",
            vec![b'a', b'b', b'c', 0xFF],
            Some("utf-8"),
            None,
            TerminalProof::ExplicitDecoderMalformed {
                encoding: "utf-8".to_string(),
            },
        ),
        (
            "explicit matching BOM malformed",
            b"\xFF\xFE\x00\x00\x00\x00\x11\x00".to_vec(),
            Some("utf-32le"),
            None,
            TerminalProof::ExplicitDecoderMalformed {
                encoding: "utf-32le".to_string(),
            },
        ),
        (
            "BOM malformed",
            b"\xFF\xFE\x00\x00\x00\x00\x11\x00".to_vec(),
            None,
            None,
            TerminalProof::BomDecoderMalformed {
                encoding: "UTF-32LE",
            },
        ),
        (
            "UTF-8 BOM malformed after NUL gate",
            {
                let mut bytes = b"\xEF\xBB\xBF\xFF".to_vec();
                bytes.resize(PREFLIGHT_BYTES, b'a');
                bytes
            },
            None,
            None,
            TerminalProof::BomDecoderMalformed { encoding: "UTF-8" },
        ),
        (
            "automatic mixed without fallback",
            mixed_prefix(),
            None,
            None,
            TerminalProof::AutomaticRejected {
                conflict_hex_offset: 3,
                fallback: FallbackTerminalState::Absent,
            },
        ),
        (
            "automatic mixed with permanently malformed fallback",
            mixed_prefix(),
            None,
            Some("utf-8"),
            TerminalProof::AutomaticRejected {
                conflict_hex_offset: 3,
                fallback: FallbackTerminalState::PermanentlyMalformed,
            },
        ),
    ];
    let mut suffixes = vec![
        Vec::new(),
        b"plain utf-8".to_vec(),
        vec![0; 257],
        vec![0x80; 257],
        (0..4096).map(|index| (index * 73) as u8).collect(),
    ];
    suffixes.extend((0_u16..=u8::MAX as u16).map(|byte| vec![byte as u8]));
    for (name, prefix, explicit, fallback, expected_proof) in cases {
        for suffix in &suffixes {
            let mut bytes = prefix.clone();
            bytes.extend_from_slice(suffix);
            let expected = reference_disposition(&bytes, explicit, fallback);
            for maximum in [1, 2, 3, 7, 127, PREFLIGHT_BYTES] {
                let mut reader = ChunkedReader::new(bytes.clone(), maximum);
                reader.fail_at = Some(prefix.len());
                let CaptureRead::Terminal(proof) =
                    capture(&mut reader, explicit, fallback, &Uninterrupted, &mut Vec::new()).unwrap()
                else {
                    panic!("{name}: expected terminal proof at chunk size {maximum}");
                };
                assert_eq!(proof, expected_proof, "{name}, chunk size {maximum}");
                assert_eq!(
                    proof_disposition(&proof),
                    expected,
                    "{name}, chunk size {maximum}, suffix length {}",
                    suffix.len()
                );
                assert!(
                    reader.position
                        <= prefix
                            .len()
                            .saturating_add(maximum.saturating_sub(1))
                            .min(bytes.len()),
                    "{name}, chunk size {maximum}: reader crossed a second read after proof"
                );
            }
        }

        let suffix = (0..4096)
            .map(|index| (index * 151 + 17) as u8)
            .collect::<Vec<_>>();
        let mut bytes = prefix.clone();
        bytes.extend_from_slice(&suffix);
        let expected = reference_disposition(&bytes, explicit, fallback);
        let mut random_state = 0xA5A5_1F3D_u32;
        let read_limits = (0..64)
            .map(|_| {
                random_state ^= random_state << 13;
                random_state ^= random_state >> 17;
                random_state ^= random_state << 5;
                (random_state as usize % 1024) + 1
            })
            .collect();
        let mut reader = ChunkedReader::new(bytes, usize::MAX).with_read_limits(read_limits);
        reader.fail_at = Some(prefix.len());
        let CaptureRead::Terminal(proof) =
            capture(&mut reader, explicit, fallback, &Uninterrupted, &mut Vec::new()).unwrap()
        else {
            panic!("{name}: expected terminal proof at randomized chunk boundaries");
        };
        assert_eq!(proof, expected_proof, "{name}, randomized chunks");
        assert_eq!(
            proof_disposition(&proof),
            expected,
            "{name}, randomized chunks"
        );
    }
}

#[test]
fn suffix_sensitive_states_are_never_published_as_terminal_proofs() {
    let short_utf8_bom_malformed = b"\xEF\xBB\xBF\xFF";
    let mut reader = ChunkedReader::new(short_utf8_bom_malformed.to_vec(), 4);
    assert!(matches!(
        capture(&mut reader, None, None, &Uninterrupted, &mut Vec::new()).unwrap(),
        CaptureRead::Complete(_)
    ));
    assert!(matches!(
        reference_disposition(short_utf8_bom_malformed, None, None),
        ReferenceDisposition::Rejected(EncodingRejection::BomMismatch { encoding: "UTF-8" })
    ));
    let mut extended = short_utf8_bom_malformed.to_vec();
    extended.push(0);
    assert_eq!(
        reference_disposition(&extended, None, None),
        ReferenceDisposition::Binary
    );

    let mut mixed = "界".repeat(11).into_bytes();
    mixed.push(0xFF);
    let mut reader = ChunkedReader::new(mixed.clone(), mixed.len());
    assert!(matches!(
        capture(&mut reader, None, None, &Uninterrupted, &mut Vec::new()).unwrap(),
        CaptureRead::Complete(_)
    ));
    mixed.push(0);
    assert_eq!(
        reference_disposition(&mixed, None, None),
        ReferenceDisposition::Binary
    );

    let mixed = mixed_prefix();
    let mut reader = ChunkedReader::new(mixed.clone(), PREFLIGHT_BYTES);
    assert!(matches!(
        capture(&mut reader, None, Some("windows-1252"), &Uninterrupted, &mut Vec::new()).unwrap(),
        CaptureRead::Complete(_)
    ));
    assert_eq!(
        reference_disposition(&mixed, None, Some("windows-1252")),
        ReferenceDisposition::Text {
            used_fallback: true
        }
    );

    let valid_magic_like_text = vec![b'M', b'Z', b' ', b'a'];
    let mut reader = ChunkedReader::new(valid_magic_like_text.clone(), 4);
    assert!(matches!(
        capture(&mut reader, None, None, &Uninterrupted, &mut Vec::new()).unwrap(),
        CaptureRead::Complete(_)
    ));
    assert_eq!(
        reference_disposition(&valid_magic_like_text, None, None),
        ReferenceDisposition::Text {
            used_fallback: false
        }
    );
}

#[test]
fn large_capture_promotes_once_reads_repeatably_and_unlinks_on_drop() {
    let bytes = vec![b'x'; MEMORY_SNAPSHOT_LIMIT + 1];
    let mut reader = ChunkedReader::new(bytes.clone(), 17 * 1024);
    let work = CancelAt::new(WorkStage::SnapshotPromote, false);
    let mut files = Vec::new();
    let CaptureRead::Complete(snapshot) =
        capture(&mut reader, None, None, &work, &mut files).unwrap()
    else {
        panic!("expected complete snapshot");
    };
    assert_eq!(work.entered.get(), 1);
    assert_eq!(reader.requested.first(), Some(&PREFLIGHT_BYTES));
    assert!(reader
        .requested
        .iter()
        .all(|requested| *requested <= SNAPSHOT_CHUNK_BYTES));
    assert_eq!(files.len(), 1);
    let temp_path = files[0].path().to_path_buf();
    assert!(temp_path.exists());
    assert_eq!(snapshot.len, bytes.len() as u64);
    assert!(snapshot.memory.is_none());
    for _ in 0..2 {
        let mut actual = Vec::new();
        files[0]
            .reopen()
            .unwrap()
            .read_to_end(&mut actual)
            .unwrap();
        assert_eq!(actual, bytes);
    }
    drop(files);
    assert!(!temp_path.exists());
}

#[test]
fn terminal_proof_after_promotion_immediately_unlinks_the_partial_temp() {
    let mut reader = ChunkedReader::new(late_magic_proof_bytes(), SNAPSHOT_CHUNK_BYTES);
    let work = CancelAt::new(WorkStage::SnapshotPromote, false);
    let mut files = Vec::new();
    assert!(matches!(
        capture(&mut reader, None, None, &work, &mut files).unwrap(),
        CaptureRead::Terminal(TerminalProof::BinaryMagicAfterUtf8Failure)
    ));
    assert_eq!(work.entered.get(), 1, "promotion must happen exactly once");
    assert!(files.is_empty());
}

#[test]
fn stop_precedes_classifier_rejection_proof_and_eof_publication() {
    let mut invalid_label = ChunkedReader::new(b"text".to_vec(), PREFLIGHT_BYTES);
    let stop = StopOnCheck::new(4, WorkStop::RequestCancelled);
    assert!(matches!(
        capture(
            &mut invalid_label,
            Some("not-an-encoding"),
            None,
            &stop,
            &mut Vec::new()
        ),
        Err(CaptureFailure::Cancelled)
    ));
    assert_eq!(stop.checks(), 4);

    let mut terminal = ChunkedReader::new(vec![0xFF, b'a', b'b', b'c'], PREFLIGHT_BYTES);
    let stop = StopOnCheck::new(4, WorkStop::EpochRetired);
    assert!(matches!(
        capture(&mut terminal, Some("utf-8"), None, &stop, &mut Vec::new()),
        Err(CaptureFailure::EpochRetired)
    ));
    assert_eq!(stop.checks(), 4);

    let mut eof = ChunkedReader::new(b"text".to_vec(), PREFLIGHT_BYTES);
    let stop = StopOnCheck::new(8, WorkStop::RequestCancelled);
    assert!(matches!(
        capture(&mut eof, None, None, &stop, &mut Vec::new()),
        Err(CaptureFailure::Cancelled)
    ));
    assert_eq!(stop.checks(), 8);
}

#[test]
fn cancellation_at_capture_stages_stops_within_the_declared_read_boundary() {
    let work = CancelAt::new(WorkStage::CapturePreflightRead, true);
    let mut reader = ChunkedReader::new(vec![b'a'; PREFLIGHT_BYTES + 1], usize::MAX);
    assert!(matches!(
        capture(&mut reader, None, None, &work, &mut Vec::new()),
        Err(CaptureFailure::Cancelled)
    ));
    assert_eq!(reader.position, 0);

    let work = CancelAt::new(WorkStage::SnapshotChunk, true);
    let mut reader = ChunkedReader::new(vec![b'a'; PREFLIGHT_BYTES + 1], usize::MAX);
    assert!(matches!(
        capture(&mut reader, None, None, &work, &mut Vec::new()),
        Err(CaptureFailure::Cancelled)
    ));
    assert_eq!(reader.position, PREFLIGHT_BYTES);

    let work = CancelAt::new(WorkStage::SnapshotPromote, true);
    let mut reader = ChunkedReader::new(vec![b'a'; MEMORY_SNAPSHOT_LIMIT + 1], usize::MAX);
    assert!(matches!(
        capture(&mut reader, None, None, &work, &mut Vec::new()),
        Err(CaptureFailure::Cancelled)
    ));
    assert_eq!(work.entered.get(), 1);
    assert!(reader.position <= MEMORY_SNAPSHOT_LIMIT + SNAPSHOT_CHUNK_BYTES);
}

#[test]
fn cancelling_a_promoted_builder_drops_its_partial_temp_file() {
    let mut builder = SnapshotBuilder::new();
    let mut files = Vec::new();
    let full_chunk = vec![b'a'; SNAPSHOT_CHUNK_BYTES];
    for _ in 0..(MEMORY_SNAPSHOT_LIMIT / SNAPSHOT_CHUNK_BYTES) {
        store(builder.append(&full_chunk), &full_chunk, &mut files).unwrap();
    }
    store(builder.append(b"x"), b"x", &mut files).unwrap();
    let temp_path = files[0].path().to_path_buf();
    assert!(temp_path.exists());

    assert!(matches!(
        checkpoint::<String, _>(&WorkCtx::inline(true)),
        Err(CaptureFailure::Cancelled)
    ));
    drop(files);
    assert!(!temp_path.exists());
}

#[test]
fn a_stop_goes_before_another_failure() {
    let failure = CaptureFailure::Io("broken".to_string());
    assert!(matches!(
        prefer_stop(&WorkCtx::inline(true), failure),
        CaptureFailure::Cancelled
    ));
    let failure = CaptureFailure::Snapshot("full".to_string());
    assert!(matches!(
        prefer_stop(&Uninterrupted, failure),
        CaptureFailure::Snapshot(message) if message == "full"
    ));
}

#[test]
fn a_bad_label_is_found_with_the_fourth_byte() {
    let mut reader = ChunkedReader::new(b"text".to_vec(), 1);
    let outcome = capture(
        &mut reader,
        Some("not-an-encoding"),
        None,
        &Uninterrupted,
        &mut Vec::new(),
    );
    assert!(matches!(
        outcome,
        Err(CaptureFailure::InvalidEncoding(
            EncodingRejection::InvalidLabel { .. }
        ))
    ));
    assert_eq!(reader.position, 4);
}

fn unix_state() -> UnixState {
    UnixState {
        device: 1,
        inode: 2,
        len: 3,
        modified_seconds: 4,
        modified_nanoseconds: 5,
        changed_seconds: 6,
        changed_nanoseconds: 7,
    }
}

#[test]
fn a_file_that_changes_is_not_settled() {
    let before = FileIdentity::Unix(unix_state());
    let same = Observation {
        identity: before,
        is_regular: true,
    };
    let grown = Observation {
        identity: FileIdentity::Unix(UnixState {
            len: 4,
            ..unix_state()
        }),
        is_regular: true,
    };
    assert!(may_capture(&same, Some(FileIdentityHint::Unix(unix_state()))));
    assert!(!may_capture(&grown, Some(FileIdentityHint::Unix(unix_state()))));
    assert!(is_stable(&before, &same, &same, None));
    assert!(!is_stable(&before, &grown, &same, None));
    assert!(!is_stable(&before, &same, &grown, None));

    let captured = CaptureRead::Complete(CapturedSnapshot {
        len: 1,
        memory: Some(vec![b'a']),
    });
    assert!(matches!(
        settle_capture(false, captured),
        CaptureDisposition::FileChanged
    ));
    let proof = CaptureRead::Terminal(TerminalProof::NulWithinFrozenProbe);
    assert!(matches!(
        settle_capture(true, proof),
        CaptureDisposition::BinarySkipped(TerminalProof::NulWithinFrozenProbe)
    ));
    let proof = CaptureRead::Terminal(TerminalProof::ExplicitDecoderMalformed {
        encoding: "utf-8".to_string(),
    });
    assert!(matches!(
        settle_capture(true, proof),
        CaptureDisposition::EncodingRejected {
            rejection: EncodingRejection::ExplicitMalformed { .. },
            ..
        }
    ));
}

#[test]
fn windows_identities_fall_back_to_the_file_index() {
    let facts = WindowsHandleFacts {
        volume_serial: 9,
        index_high: 1,
        index_low: 2,
        size_high: 0,
        size_low: 3,
        creation_high: 0,
        creation_low: 4,
        write_high: 0,
        write_low: 5,
        attributes: 6,
    };
    for code in [ERROR_NOT_SUPPORTED, ERROR_INVALID_PARAMETER] {
        let state = WindowsState::from_handle(facts, Err(code), None).unwrap();
        assert_eq!(
            state.file_id,
            WindowsFileId::Legacy {
                volume_serial: 9,
                file_index: (1 << 32) + 2
            }
        );
        assert_eq!(state.len, 3);
    }
    assert_eq!(WindowsState::from_handle(facts, Err(5), None), Err(5));
}

#[test]
fn snapshot_ranges_are_checked() {
    let snapshot = CapturedSnapshot {
        len: 12,
        memory: Some(b"\xef\xbb\xbf\xe5\x89\x8dhit...".to_vec()),
    };
    let backing = snapshot.memory.as_deref().unwrap();
    assert_eq!(snapshot.memory_prefix(8), Some(&backing[..8]));
    let suffix = snapshot.shared_range(3).unwrap();
    assert_eq!(suffix.memory_bytes(backing), Some(&backing[3..]));
    assert_eq!(suffix.read_range(backing, 3, 6).unwrap(), b"hit");
    assert_eq!(suffix.read_range(backing, 4, 3), Err(RangeError::Outside));
    assert_eq!(
        suffix.read_range(backing, 0, suffix.len + 1),
        Err(RangeError::Outside)
    );
    let error = snapshot.shared_range(13).unwrap_err();
    assert_eq!(error, RangeError::Beyond);
    assert_eq!(
        error.message(),
        "decoded text starts beyond the captured snapshot"
    );
}

fn classified(bytes: &[u8], explicit: Option<&str>, fallback: Option<&str>) -> CaptureDisposition {
    let mut reader = ChunkedReader::new(bytes.to_vec(), SNAPSHOT_CHUNK_BYTES);
    let read = capture(
        &mut reader,
        explicit,
        fallback,
        &Uninterrupted,
        &mut Vec::new(),
    );
    settle_capture(true, read.unwrap())
}

#[test]
fn stable_terminal_proofs_map_to_their_exact_candidate_dispositions() {
    let mut magic = b"\x1F\x8B".to_vec();
    magic.resize(PREFLIGHT_BYTES, b'a');
    assert!(matches!(
        classified(&magic, None, None),
        CaptureDisposition::BinarySkipped(TerminalProof::BinaryMagicAfterUtf8Failure)
    ));

    assert!(matches!(
        classified(&[b'a', b'b', b'c', 0xFF], Some("utf-8"), None),
        CaptureDisposition::EncodingRejected {
            rejection: EncodingRejection::ExplicitMalformed { ref encoding },
            reason: TerminalProof::ExplicitDecoderMalformed {
                encoding: ref proof_encoding
            },
        } if encoding == "utf-8" && proof_encoding == "utf-8"
    ));

    let mixed = mixed_prefix();
    assert!(matches!(
        classified(&mixed, None, None),
        CaptureDisposition::EncodingRejected {
            rejection: EncodingRejection::MixedOrInconsistent {
                conflict_hex_offset: Some(3)
            },
            reason: TerminalProof::AutomaticRejected {
                conflict_hex_offset: 3,
                fallback: FallbackTerminalState::Absent,
            },
        }
    ));
    assert!(matches!(
        classified(&mixed, None, Some("windows-1252")),
        CaptureDisposition::Searchable(_)
    ));
}

#[test]
fn small_snapshot_prefix_borrows_the_sealed_backing() {
    let bytes = b"borrow this prefix without copying";
    let CaptureDisposition::Searchable(snapshot) = classified(bytes, None, None) else {
        panic!("expected searchable snapshot");
    };
    let backing = snapshot.memory.as_deref().unwrap();
    assert_eq!(backing, bytes);
    let prefix = snapshot.memory_prefix(8);
    assert_eq!(prefix, Some(&backing[..8]));
    assert_eq!(prefix.unwrap().as_ptr(), backing.as_ptr());
    let shared = snapshot.shared_range(0).unwrap();
    assert_eq!(
        shared.memory_bytes(backing).unwrap().as_ptr(),
        backing.as_ptr()
    );
}

#[test]
fn utf8_bom_suffix_reuses_memory_and_rejects_invalid_ranges() {
    let bytes = b"\xef\xbb\xbf\xe5\x89\x8dhit\xe5\x90\x8e\n";
    let CaptureDisposition::Searchable(snapshot) = classified(bytes, None, None) else {
        panic!("expected searchable UTF-8 BOM snapshot");
    };
    let backing = snapshot.memory.as_deref().unwrap();
    let suffix = snapshot.shared_range(3).unwrap();
    assert_eq!(suffix.memory_bytes(backing).unwrap(), &backing[3..]);
    assert_eq!(
        suffix.memory_bytes(backing).unwrap().as_ptr(),
        backing[3..].as_ptr()
    );
    assert_eq!(suffix.read_range(backing, 3, 6).unwrap(), b"hit");
    assert_eq!(suffix.read_range(backing, 4, 3), Err(RangeError::Outside));
    assert_eq!(
        suffix.read_range(backing, 0, suffix.len + 1),
        Err(RangeError::Outside)
    );
}
