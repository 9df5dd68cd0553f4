use fastctx::encoding::codec::DECODE_CHUNK_BYTES;
use fastctx::encoding::decoder::{decode_whole, EncodingKind, StrictDecoder};
use fastctx::encoding::detect::{
    bom_detected_encoding, canonical_encoding_label, has_binary_magic, has_binary_nul, kind_of,
    DetectedEncoding, EncodingOrigin,
};
use fastctx::encoding::editable::encode_fragment;
use fastctx::encoding::legacy::{
    encode_whole, hard_validate, is_disallowed_legacy_character, RoundTripVerifier,
};
use fastctx::encoding::pipeline::{
    decode_text, validate_snapshot_encoding, validate_source_encoding, EncodingDecision,
    EncodingPipeline, PassOptions, PassResult,
};
use fastctx::encoding::rejection::EncodingRejection;
use fastctx::encoding::segments::{
    segment_key, LegacySegmentScanner, SegmentCache, SegmentCacheEntry, SegmentScan,
    LEGACY_SEGMENT_MAX_BYTES,
};
use fastctx::encoding::stats::ValidationStats;
use fastctx::encoding::stream::{ChunkStep, DecodedChunkReader, ReadStep, Utf8Reader};
use fastctx::encoding::utf8::{scan_utf8, Utf8Evidence};
use fastctx::encoding::conflict::Utf8PrefixScanner;
use fastctx::operation::{Uninterrupted, WorkCheckpoint, WorkStage, WorkStop};
use std::cell::Cell;

#[test]
fn nul_is_binary_but_unicode_boms_take_precedence() {
    assert!(decode_text(b"text\0binary").is_none());
    let decoded = decode_text(&[0xFF, 0xFE, b'A', 0, b'B', 0]).unwrap();
    assert_eq!(decoded.text, "AB");
    assert_eq!(decoded.source_encoding.as_deref(), Some("UTF-16LE"));

    let decoded = decode_text(&[0x00, 0x00, 0xFE, 0xFF, 0x00, 0x00, 0x00, b'A']).unwrap();
    assert_eq!(decoded.text, "A");
    assert_eq!(decoded.source_encoding.as_deref(), Some("UTF-32BE"));
}

#[test]
fn low_evidence_legacy_bytes_are_never_returned_as_guessed_text() {
    assert!(decode_text(b"valid\xFFtail").is_none());
}

#[test]
fn binary_probe_stops_after_exactly_eight_kibibytes() {
    let mut inside = vec![b'a'; 8 * 1024];
    inside[8 * 1024 - 1] = 0;
    assert!(has_binary_nul(&inside));

    let mut outside = vec![b'a'; 8 * 1024];
    outside.push(0);
    assert!(!has_binary_nul(&outside));
}

#[test]
fn arbitrary_byte_fuzz_corpus_never_panics() {
    let mut state = 0xA5A5_5A5A_1234_5678_u64;
    for length in 0..=256 {
        let mut bytes = Vec::with_capacity(length);
        for _ in 0..length {
            state = state
                .wrapping_mul(6_364_136_223_846_793_005)
                .wrapping_add(1_442_695_040_888_963_407);
            bytes.push((state >> 32) as u8);
        }
        let _ = decode_text(&bytes);
    }
    for byte in 0_u8..=u8::MAX {
        let _ = decode_text(&[byte]);
        let _ = decode_text(&[0xA1, byte]);
        let _ = decode_text(&[byte, 0xFF, 0x00, 0x7F]);
    }
}

#[test]
fn legacy_hard_filter_rejects_controls_and_unicode_noncharacters() {
    for character in [
        '\0',
        '\u{0001}',
        '\u{0080}',
        '\u{009F}',
        '\u{FDD0}',
        '\u{10FFFF}',
    ] {
        assert!(is_disallowed_legacy_character(character));
    }
    for character in ['\t', '\n', '\r', 'a', '界'] {
        assert!(!is_disallowed_legacy_character(character));
    }
}

fn assert_decoded(bytes: &[u8], expected: &str) {
    let EncodingDecision::Text(validated) = validate_source_encoding(bytes, None) else {
        panic!("expected trusted text");
    };
    let decoded = validated.decode_for_search(bytes).unwrap();
    assert_eq!(decoded, expected.as_bytes());
    let mut reader = validated.open_source_reader();
    let mut rest = &bytes[validated.detected.bom_len..];
    let mut actual = Vec::new();
    loop {
        match reader.read(1000) {
            ReadStep::Bytes(piece) => {
                assert!(!piece.is_empty() && piece.len() <= 1000);
                actual.extend(piece);
            }
            ReadStep::NeedChunk => {
                let count = rest.len().min(DECODE_CHUNK_BYTES);
                reader.feed(&rest[..count]).unwrap();
                rest = &rest[count..];
            }
            ReadStep::End => break,
        }
    }
    assert_eq!(String::from_utf8(actual).unwrap(), expected);
}

#[test]
fn strict_decoders_preserve_characters_split_at_internal_chunk_boundaries() {
    let utf8_text = format!("{}界", "a".repeat(DECODE_CHUNK_BYTES - 1));
    assert_decoded(utf8_text.as_bytes(), &utf8_text);

    let utf16_text = format!("{}😀Z", "a".repeat(DECODE_CHUNK_BYTES / 2 - 1));
    let mut utf16_bytes = vec![0xFF, 0xFE];
    for unit in utf16_text.encode_utf16() {
        utf16_bytes.extend(unit.to_le_bytes());
    }
    assert_decoded(&utf16_bytes, &utf16_text);

    let mut gbk_bytes = vec![b'a'];
    for _ in 0..=DECODE_CHUNK_BYTES / 2 {
        gbk_bytes.extend([0xD6, 0xD0]);
    }
    let gbk_text = format!("a{}", "中".repeat(DECODE_CHUNK_BYTES / 2 + 1));
    assert_decoded(&gbk_bytes, &gbk_text);
}

#[test]
fn utf8_evidence_matches_the_standard_library_for_every_prefix() {
    let mut state = 0xC001_D00D_A5A5_5A5A_u64;
    for length in 0..=512 {
        let mut bytes = Vec::with_capacity(length);
        let mut evidence = Utf8Evidence::new();
        for _ in 0..length {
            state = state
                .wrapping_mul(6_364_136_223_846_793_005)
                .wrapping_add(1_442_695_040_888_963_407);
            bytes.push((state >> 32) as u8);
            evidence.push((state >> 32) as u8);
            assert_eq!(
                evidence.is_complete_and_valid(),
                std::str::from_utf8(&bytes).is_ok(),
                "length {}",
                bytes.len()
            );
        }
    }
}

fn legacy_metrics(bytes: &[u8], name: &'static str) -> PassResult {
    let pipeline = EncodingPipeline {
        bytes,
        chunk_bytes: DECODE_CHUNK_BYTES,
    };
    let detected = DetectedEncoding {
        kind: kind_of(name),
        bom_len: 0,
        source_encoding: Some(name),
        origin: EncodingOrigin::Automatic,
    };
    pipeline
        .validate_selected(
            &detected,
            PassOptions {
                enforce_legacy_hard_checks: true,
                scan_legacy_segments: true,
                probe_raw_utf8: false,
            },
            &Uninterrupted,
        )
        .unwrap()
}

#[test]
fn repeated_segments_reuse_detector_and_roundtrip_scratch() {
    let mut line = Vec::new();
    for _ in 0..40 {
        line.extend_from_slice(&[0xD6, 0xD0]);
    }
    line.push(b'\n');
    let bytes = line.repeat(4_096);
    let pass = legacy_metrics(&bytes, "GBK");
    let stats = pass.stats.unwrap();
    assert_eq!(stats.total_lines(), 4_097);
    assert!(stats.has_trailing_newline);
    assert!(!pass.segments_inconsistent);
    assert!(
        pass.roundtrip_allocations <= 8,
        "round-trip buffers grew {} times for {} chunks",
        pass.roundtrip_allocations,
        bytes.len().div_ceil(DECODE_CHUNK_BYTES)
    );
    assert_eq!(pass.detector_constructions, 1);
}

#[test]
fn unique_segments_construct_at_most_one_detector_each_and_reuse_scratch() {
    const UNIQUE_SEGMENTS: usize = 64;
    let mut segments = Vec::with_capacity(UNIQUE_SEGMENTS);
    for index in 0..UNIQUE_SEGMENTS {
        let mut segment = Vec::with_capacity(96);
        for _ in 0..40 {
            segment.extend_from_slice(&[0xD6, 0xD0]);
        }
        segment.extend_from_slice(format!("-{index:02x}").as_bytes());
        segment.push(b'\n');
        segments.push(segment);
    }
    let mut bytes = Vec::new();
    for _ in 0..2 {
        for segment in &segments {
            bytes.extend_from_slice(segment);
        }
    }

    let pass = legacy_metrics(&bytes, "GBK");
    assert!(pass.stats.is_some());
    assert!(!pass.segments_inconsistent);
    assert!(pass.roundtrip_allocations <= 8);
    assert_eq!(pass.detector_constructions, UNIQUE_SEGMENTS);
}

#[test]
fn invalid_unalignable_segment_cannot_grow_pending_past_the_contract_boundary() {
    let mut scanner = LegacySegmentScanner::new("GBK");
    let invalid = vec![0xFF; LEGACY_SEGMENT_MAX_BYTES * 8];
    let result = scanner.push(&invalid, &Uninterrupted).unwrap();
    assert_eq!(result, SegmentScan::CandidateInvalid);
    assert!(scanner.pending_len() <= LEGACY_SEGMENT_MAX_BYTES);
}

#[test]
fn segment_cache_compares_full_bytes_after_a_hash_key_match() {
    let requested = b"requested-segment";
    let colliding_bytes = b"different-segment";
    let mut cache = SegmentCache::new();
    cache.entries.push_back(SegmentCacheEntry {
        key: segment_key(requested),
        bytes: colliding_bytes.to_vec(),
        detector_guess: Some("GBK"),
        validations: vec![("GBK", true)],
    });

    let entry = cache.take_entry(requested);
    assert_eq!(entry.bytes.as_slice(), requested);
    assert!(entry.detector_guess.is_none());
    assert!(entry.validations.is_empty());
    assert_eq!(cache.entries.len(), 1);
    assert_eq!(
        cache.entries.front().unwrap().bytes.as_slice(),
        colliding_bytes
    );
}

#[test]
fn roundtrip_verifier_compares_every_source_byte() {
    let mut exact = RoundTripVerifier::new("GBK");
    exact.observe_source(&[0xD6, 0xD0]);
    assert!(exact.push("中"));
    assert!(exact.finish());

    let mut mutated = RoundTripVerifier::new("GBK");
    mutated.observe_source(&[0xD6, 0xD1]);
    assert!(!mutated.push("中") || !mutated.finish());
}

struct StopAfter {
    stage: WorkStage,
    allowed: usize,
    seen: Cell<usize>,
    stop: WorkStop,
}

impl StopAfter {
    fn new(stage: WorkStage, allowed: usize, stop: WorkStop) -> Self {
        StopAfter {
            stage,
            allowed,
            seen: Cell::new(0),
            stop,
        }
    }
}

impl WorkCheckpoint for StopAfter {
    fn never_stops(&self) -> bool {
        false
    }

    fn always_stops(&self) -> bool {
        false
    }

    fn stops_with(&self, _stop: WorkStop) -> bool {
        true
    }

    fn check_stop(&self) -> Result<(), WorkStop> {
        Ok(())
    }

    fn check_work(&self, stage: WorkStage) -> Result<(), WorkStop> {
        if stage == self.stage {
            self.seen.set(self.seen.get() + 1);
            if self.seen.get() > self.allowed {
                return Err(self.stop);
            }
        }
        Ok(())
    }
}

#[test]
fn encoding_chunk_checkpoint_observes_request_cancellation() {
    let bytes = vec![b'a'; DECODE_CHUNK_BYTES * 2];
    let work = StopAfter::new(WorkStage::EncodingChunk, 1, WorkStop::RequestCancelled);
    let result = validate_snapshot_encoding(&bytes, None, &work);
    assert!(matches!(result, Err(WorkStop::RequestCancelled)));
    assert_eq!(work.seen.get(), 2);
}

#[test]
fn legacy_segment_checkpoint_stops_without_inspecting_another_segment() {
    let mut bytes = Vec::new();
    for _ in 0..64 {
        bytes.extend_from_slice(&[0xD6, 0xD0]);
    }
    bytes.push(b'\n');
    let work = StopAfter::new(WorkStage::LegacySegment, 0, WorkStop::RequestCancelled);
    let result = validate_snapshot_encoding(&bytes, None, &work);
    assert!(matches!(result, Err(WorkStop::RequestCancelled)));
    assert_eq!(work.seen.get(), 1);
}

#[test]
fn candidate_checkpoint_observes_epoch_retirement() {
    let work = StopAfter::new(WorkStage::CandidateValidation, 0, WorkStop::EpochRetired);
    let result = validate_snapshot_encoding(b"plain text", None, &work);
    assert!(matches!(result, Err(WorkStop::EpochRetired)));
}

#[test]
fn binary_signatures_are_told_from_text() {
    assert!(has_binary_magic(b"PK\x03\x04rest"));
    assert!(has_binary_magic(b"\x7FELF"));
    assert!(has_binary_magic(b"SQLite format 3\0"));
    let mut archive = vec![b'a'; 257];
    archive.extend_from_slice(b"ustar");
    assert!(has_binary_magic(&archive));
    assert!(!has_binary_magic(b"plain"));
    assert!(matches!(
        validate_source_encoding(b"MZ\xFF\xFE", None),
        EncodingDecision::Binary
    ));
}

#[test]
fn four_bytes_decide_a_byte_order_mark() {
    let short = bom_detected_encoding(&[0xFF, 0xFE]).unwrap();
    assert_eq!(short.kind.name(), "UTF-16LE");
    let long = bom_detected_encoding(&[0xFF, 0xFE, 0, 0]).unwrap();
    assert_eq!(long.kind.name(), "UTF-32LE");
    assert_eq!(long.bom_len, 4);
    assert!(bom_detected_encoding(b"plain").is_none());
}

#[test]
fn labels_are_canonical_or_refused() {
    assert_eq!(canonical_encoding_label(" latin1 "), Ok("windows-1252"));
    assert_eq!(canonical_encoding_label("Utf-32LE"), Ok("UTF-32LE"));
    assert_eq!(
        canonical_encoding_label("klingon"),
        Err(EncodingRejection::InvalidLabel {
            value: "klingon".to_string()
        })
    );
}

#[test]
fn rejections_have_their_words() {
    let message = EncodingRejection::Undecodable.message("a.txt");
    assert!(message.contains("a.txt"));
    let reasons: Vec<String> = vec![
        EncodingRejection::Ambiguous {
            candidates: vec!["gbk", "big5"],
        }
        .skip_reason(),
        EncodingRejection::MixedOrInconsistent {
            conflict_hex_offset: Some(3),
        }
        .skip_reason(),
        EncodingRejection::Iso2022JpSignature.skip_reason(),
        EncodingRejection::Undecodable.skip_reason(),
        EncodingRejection::BomMismatch { encoding: "UTF-8" }.skip_reason(),
        EncodingRejection::ExplicitMalformed {
            encoding: "gbk".to_string(),
        }
        .skip_reason(),
        EncodingRejection::InvalidLabel {
            value: "x".to_string(),
        }
        .skip_reason(),
    ];
    assert!(reasons.iter().all(|reason| !reason.is_empty()));
}

#[test]
fn stats_count_lines_and_escapes() {
    let mut stats = ValidationStats::new();
    assert_eq!(stats.total_lines(), 0);
    stats.observe("one\ntwo\x1B");
    stats.observe("$B\n");
    assert_eq!(stats.total_lines(), 3);
    assert!(stats.has_trailing_newline);
    assert!(stats.has_iso_2022_escape);
    assert!(!stats.has_non_ascii);
}

#[test]
fn a_utf8_scan_finds_the_longest_valid_prefix() {
    let scan = scan_utf8(b"ab\xE7\x95\x8C\xFFz");
    assert_eq!(scan.valid_up_to, 5);
    assert!(scan.rejected);
    let cut = scan_utf8(b"ab\xE7\x95");
    assert_eq!(cut.valid_up_to, 2);
    assert!(!cut.rejected);
}

#[test]
fn a_long_utf8_prefix_conflicts_at_a_hex_line() {
    let mut bytes = "界".repeat(11).into_bytes();
    bytes.push(0xFF);
    let mut scanner = Utf8PrefixScanner::new();
    assert_eq!(scanner.push(&bytes), Some(33 / 16 + 1));
    let mut short = Utf8PrefixScanner::new();
    assert_eq!(short.push(b"ab\xFFcd"), None);
    assert_eq!(short.finish(), None);
}

#[test]
fn legacy_text_goes_there_and_back() {
    assert_eq!(encode_whole("GBK", "中"), Some(vec![0xD6, 0xD0]));
    assert_eq!(encode_whole("windows-1252", "中"), None);
    assert!(hard_validate("GBK", &[0xD6, 0xD0]));
    assert!(!hard_validate("GBK", &[0xFF]));
    assert_eq!(
        decode_whole(kind_of("GBK"), &[0xD6, 0xD0]).as_deref(),
        Some("中")
    );
    assert_eq!(decode_whole(kind_of("Shift_JIS"), &[0x81]), None);
    assert_eq!(
        encode_fragment(EncodingKind::Utf16Be, "A😀"),
        Some(vec![0, b'A', 0xD8, 0x3D, 0xDE, 0x00])
    );
}

#[test]
fn editable_boundaries_follow_the_raw_bytes() {
    let raw = [0xFF, 0xFE, b'A', 0, 0x3D, 0xD8, 0x00, 0xDE];
    let EncodingDecision::Text(validated) = validate_source_encoding(&raw, None) else {
        panic!("expected trusted text");
    };
    let decoded = validated.decode_editable_snapshot(&raw).unwrap();
    assert_eq!(decoded.text, "A😀");
    assert_eq!(decoded.raw_boundaries[0], Some(2));
    assert_eq!(decoded.raw_boundaries[1], Some(4));
    assert_eq!(decoded.raw_boundaries[2], None);
    assert_eq!(decoded.raw_boundaries[5], Some(8));
    assert_eq!(validated.encoding_label(), "UTF-16LE");
    assert_eq!(validated.utf8_snapshot_start(), None);
    let EncodingDecision::Text(plain) = validate_source_encoding(b"\xEF\xBB\xBFa", None) else {
        panic!("expected trusted text");
    };
    assert_eq!(plain.utf8_snapshot_start(), Some(3));
    assert_eq!(
        validated.transcoding_note().as_deref(),
        Some("(Note: decoded from UTF-16LE; output is UTF-8.)")
    );
}

fn utf16le() -> DetectedEncoding {
    bom_detected_encoding(&[0xFF, 0xFE, b'A', 0]).unwrap()
}

#[test]
fn chunks_hand_out_text_once_it_is_complete() {
    let mut reader = DecodedChunkReader::open(&utf16le());
    assert_eq!(reader.next_chunk(&[b'A']), Ok(ChunkStep::More));
    assert_eq!(
        reader.next_chunk(&[0, b'B', 0]),
        Ok(ChunkStep::Text("AB".to_string()))
    );
    assert!(!reader.is_finished());
    assert_eq!(reader.next_chunk(&[]), Ok(ChunkStep::End));
    assert!(reader.is_finished());
    assert_eq!(reader.next_chunk(b"C"), Ok(ChunkStep::End));

    let mut cut = DecodedChunkReader::open(&utf16le());
    assert_eq!(cut.next_chunk(&[b'A']), Ok(ChunkStep::More));
    assert_eq!(cut.next_chunk(&[]), Err(()));
}

#[test]
fn a_reader_reports_content_that_no_longer_decodes() {
    let mut reader = Utf8Reader::open_source(&utf16le());
    assert_eq!(reader.read(0), ReadStep::Bytes(Vec::new()));
    assert_eq!(reader.read(4), ReadStep::NeedChunk);
    reader.feed(&[0x4C, 0x75]).unwrap();
    assert_eq!(reader.read(2), ReadStep::Bytes(vec![0xE7, 0x95]));
    assert_eq!(reader.read(2), ReadStep::Bytes(vec![0x8C]));
    assert_eq!(
        reader.feed(&[0x00, 0xDC]).unwrap_err(),
        "file changed after encoding validation"
    );
}

#[test]
fn two_chunks_of_any_length_decode_as_one() {
    let text = "界é😀a".repeat(DECODE_CHUNK_BYTES / 4);
    let bytes = text.as_bytes();
    assert!(bytes.len() > 2 * DECODE_CHUNK_BYTES);
    for cut in [0, 1, 2, 3, 5, 8, bytes.len() / 2, bytes.len() - 2, bytes.len()] {
        let mut decoder = StrictDecoder::new(EncodingKind::Utf8);
        let first = decoder.push(&bytes[..cut], false).unwrap();
        assert!(cut - first.len() <= 3);
        assert!(bytes.starts_with(first.as_bytes()));
        let second = decoder.push(&bytes[cut..], true).unwrap();
        assert_eq!(first + &second, text);
    }
    let mut decoder = StrictDecoder::new(EncodingKind::Utf8);
    decoder.push(&bytes[..1], false).unwrap();
    assert!(decoder.push(&bytes[3..], true).is_err());

    let gbk = [0xD6, 0xD0].repeat(DECODE_CHUNK_BYTES);
    let mut decoder = StrictDecoder::new(EncodingKind::Legacy("GBK"));
    let first = decoder.push(&gbk[..DECODE_CHUNK_BYTES + 3], false).unwrap();
    let second = decoder.push(&gbk[DECODE_CHUNK_BYTES + 3..], true).unwrap();
    assert_eq!(first + &second, "中".repeat(DECODE_CHUNK_BYTES));
    assert!(StrictDecoder::new(EncodingKind::Legacy("GBK"))
        .push(&gbk[1..], true)
        .is_err());
}
