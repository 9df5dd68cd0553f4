//! The trust hierarchy: explicit intent, byte order mark, strict UTF-8, then trusted legacy
//! encodings. The decision depends on the bytes alone, never on how they are chunked.

use crate::encoding::codec;
use crate::encoding::codec::{guess_encoding, is_single_byte, DECODE_CHUNK_BYTES};
use crate::encoding::conflict;
use crate::encoding::conflict::Utf8PrefixScanner;
use crate::encoding::decoder;
use crate::encoding::decoder::{decode_whole, Charset, EncodingKind, StrictDecoder};
use crate::encoding::detect;
use crate::encoding::detect::{
    bom_detected_encoding, explicit_detected_encoding, has_binary_magic, has_binary_nul,
    is_legacy_encoding, kind_of, DetectedEncoding, DetectedSpec, EncodingOrigin, OriginSpec,
    BINARY_PROBE_BYTES,
};
use crate::encoding::legacy;
use crate::encoding::legacy::{any_disallowed, RoundTripVerifier};
use crate::encoding::rejection;
use crate::encoding::rejection::{EncodingRejection, RejectionSpec};
use crate::encoding::segments;
use crate::encoding::segments::{
    count_non_ascii, LegacySegmentScanner, SegmentScan, LEGACY_EVIDENCE_BYTES,
};
use crate::encoding::stats;
use crate::encoding::stats::ValidationStats;
use crate::encoding::utf8;
use crate::encoding::utf8::Utf8Evidence;
use crate::operation::{Uninterrupted, WorkCheckpoint, WorkStage, WorkStop};
use crate::text::same_text;
use vstd::prelude::*;
use vstd::slice::slice_subrange;
use vstd::string::*;
use vstd::utf8::*;

verus! {

/// A content accepted as text, with its line metadata.
#[derive(Clone, Debug)]
pub struct ValidatedFileEncoding {
    pub detected: DetectedEncoding,
    pub total_lines: usize,
    pub has_trailing_newline: bool,
    /// The content was read in an explicit legacy encoding although it is valid UTF-8 too.
    pub explicit_utf8_warning: bool,
}

/// The decision about a content.
pub enum EncodingDecision {
    /// Trusted text.
    Text(ValidatedFileEncoding),
    /// Not text.
    Binary,
    /// Neither, for a reason.
    Rejected(EncodingRejection),
}

/// The mathematical value of an [`EncodingDecision`].
pub enum DecisionSpec {
    Text { detected: DetectedSpec, total_lines: nat, has_trailing_newline: bool, warning: bool },
    Binary,
    Rejected(RejectionSpec),
}

impl View for EncodingDecision {
    type V = DecisionSpec;

    open spec fn view(&self) -> DecisionSpec {
        match self {
            EncodingDecision::Text(validated) => DecisionSpec::Text {
                detected: validated.detected@,
                total_lines: validated.total_lines as nat,
                has_trailing_newline: validated.has_trailing_newline,
                warning: validated.explicit_utf8_warning,
            },
            EncodingDecision::Binary => DecisionSpec::Binary,
            EncodingDecision::Rejected(rejection) => DecisionSpec::Rejected(rejection@),
        }
    }
}

/// What one strict pass over a content shows.
pub struct PassSpec {
    /// The decoded text, `None` when the content does not pass.
    pub text: Option<Seq<char>>,
    pub raw_is_multibyte_utf8: bool,
    pub segments_inconsistent: bool,
    /// How many detectors the segment scan consults.
    pub detectors: nat,
    /// How often the buffers of the round trip may grow.
    pub buffer_growths: nat,
}

/// The outcome of a pass that failed.
pub open spec fn failed_pass() -> PassSpec {
    PassSpec {
        text: None,
        raw_is_multibyte_utf8: false,
        segments_inconsistent: false,
        detectors: 0,
        buffer_growths: 0,
    }
}

/// Whether the bytes are valid UTF-8 and more than ASCII.
pub open spec fn multibyte_utf8(bytes: Seq<u8>) -> bool {
    valid_utf8(bytes) && segments::non_ascii_count(bytes) > 0
}

/// What a content decodes to when it passes: the text, and whether its segments disagree. Where
/// asked for, the legacy checks and the segment scan must not fail.
pub open spec fn content_pass(
    charset: Charset,
    content: Seq<u8>,
    legacy_checks: bool,
    segment_check: bool,
) -> Option<(Seq<char>, bool)> {
    let name = charset.name();
    let scan = segments::segment_scan(name, content);
    match decoder::whole_text(charset, content) {
        None => None,
        Some(text) => if legacy_checks && (charset is Utf32Le || charset is Utf32Be
            || legacy::has_disallowed(text) || legacy::legacy_bytes(name, text) != Some(content)) {
            None
        } else if segment_check && scan is CandidateInvalid {
            None
        } else {
            Some((text, segment_check && scan is Inconsistent))
        },
    }
}

/// One strict pass over a file, with the probe for UTF-8 where asked for.
pub open spec fn selected_pass(
    bytes: Seq<u8>,
    detected: DetectedSpec,
    legacy_checks: bool,
    segment_check: bool,
    probe_utf8: bool,
) -> PassSpec {
    let content = bytes.skip(detected.bom_len as int);
    match content_pass(detected.charset, content, legacy_checks, segment_check) {
        None => failed_pass(),
        Some((text, inconsistent)) => PassSpec {
            text: Some(text),
            raw_is_multibyte_utf8: probe_utf8 && multibyte_utf8(bytes),
            segments_inconsistent: inconsistent,
            detectors: if segment_check {
                segments::consulted_detectors(detected.charset.name(), content)
            } else {
                0
            },
            buffer_growths: if legacy_checks {
                2 * legacy::growths(content.len(), 0)
            } else {
                0
            },
        },
    }
}

/// The acceptance of a content with this text.
pub open spec fn accepted(detected: DetectedSpec, text: Seq<char>, warning: bool) -> DecisionSpec {
    DecisionSpec::Text {
        detected,
        total_lines: stats::line_total(text),
        has_trailing_newline: stats::ends_with_newline(text),
        warning,
    }
}

/// What the bytes alone select.
pub open spec fn automatic_detected(name: Seq<char>) -> DetectedSpec {
    DetectedSpec {
        charset: detect::charset_of(name),
        bom_len: 0,
        source_encoding: Some(name),
        origin: OriginSpec::Automatic,
    }
}

/// Content without a mark that is valid UTF-8.
pub open spec fn plain_utf8() -> DetectedSpec {
    DetectedSpec {
        charset: Charset::Utf8,
        bom_len: 0,
        source_encoding: None,
        origin: OriginSpec::Automatic,
    }
}

/// The legacy encodings that an ambiguous content is tried in: label and canonical name.
pub open spec fn fixed_label(index: int) -> Seq<char> {
    if index == 0 {
        "windows-1252"@
    } else if index == 1 {
        "gbk"@
    } else if index == 2 {
        "shift_jis"@
    } else if index == 3 {
        "big5"@
    } else {
        "euc-kr"@
    }
}

/// The canonical name that belongs to [`fixed_label`].
pub open spec fn fixed_name(index: int) -> Seq<char> {
    if index == 0 {
        "windows-1252"@
    } else if index == 1 {
        "GBK"@
    } else if index == 2 {
        "Shift_JIS"@
    } else if index == 3 {
        "Big5"@
    } else {
        "EUC-KR"@
    }
}

/// The pass that the nominated encoding gets: with enough evidence it includes the segments.
pub open spec fn nominated_pass(bytes: Seq<u8>) -> PassSpec {
    selected_pass(bytes, automatic_detected(codec::guessed_encoding(bytes)), true, true, false)
}

/// Whether there is enough evidence to trust a nomination.
pub open spec fn enough_evidence(bytes: Seq<u8>) -> bool {
    segments::non_ascii_count(bytes) >= LEGACY_EVIDENCE_BYTES
}

/// Whether the content passes in a fixed encoding. A nominated one keeps the outcome of the
/// pass that it had.
pub open spec fn fixed_passes(bytes: Seq<u8>, index: int) -> bool {
    if enough_evidence(bytes) && codec::guessed_encoding(bytes) == fixed_name(index) {
        nominated_pass(bytes).text is Some
    } else {
        selected_pass(bytes, automatic_detected(fixed_name(index)), true, false, false).text is Some
    }
}

/// The labels of the first `count` fixed encodings in which the content passes.
pub open spec fn fixed_candidates(bytes: Seq<u8>, count: nat) -> Seq<Seq<char>>
    decreases count,
{
    if count == 0 {
        Seq::empty()
    } else {
        let before = fixed_candidates(bytes, (count - 1) as nat);
        if fixed_passes(bytes, count - 1) {
            before.push(fixed_label(count - 1))
        } else {
            before
        }
    }
}

/// A row number as a rejection carries it.
pub open spec fn row_of(row: Option<nat>) -> Option<usize> {
    match row {
        Some(row) => Some(row as usize),
        None => None,
    }
}

/// The decision about content that is neither marked, binary nor UTF-8.
pub open spec fn classify_legacy(bytes: Seq<u8>) -> DecisionSpec {
    let guess = codec::guessed_encoding(bytes);
    let pass = nominated_pass(bytes);
    let candidates = fixed_candidates(bytes, 5);
    if conflict::whole_conflict(bytes) is Some {
        DecisionSpec::Rejected(
            RejectionSpec::MixedOrInconsistent(row_of(conflict::whole_conflict(bytes))),
        )
    } else if enough_evidence(bytes) && pass.text is Some && pass.segments_inconsistent {
        DecisionSpec::Rejected(RejectionSpec::MixedOrInconsistent(None))
    } else if enough_evidence(bytes) && pass.text is Some && !codec::single_byte(guess) {
        accepted(automatic_detected(guess), pass.text->Some_0, false)
    } else if candidates.len() == 0 {
        DecisionSpec::Rejected(RejectionSpec::Undecodable)
    } else {
        DecisionSpec::Rejected(RejectionSpec::Ambiguous(candidates))
    }
}

/// The decision about a content: an explicit label, then a byte order mark, then the binary
/// probes, strict UTF-8, and the legacy encodings.
pub open spec fn classify(bytes: Seq<u8>, explicit: Option<Seq<char>>) -> DecisionSpec {
    let prefix = detect::probe(bytes);
    match explicit {
        Some(value) => match detect::explicit_detected(value, prefix) {
            None => DecisionSpec::Rejected(RejectionSpec::InvalidLabel(value)),
            Some(detected) => {
                let pass = selected_pass(
                    bytes,
                    detected,
                    false,
                    false,
                    detected.charset is Legacy,
                );
                match pass.text {
                    Some(text) => accepted(detected, text, pass.raw_is_multibyte_utf8),
                    None => DecisionSpec::Rejected(RejectionSpec::ExplicitMalformed(value)),
                }
            },
        },
        None => match detect::bom_detected(prefix) {
            Some(detected) => if detected.charset is Utf8 && detect::has_nul(bytes) {
                DecisionSpec::Binary
            } else {
                match selected_pass(bytes, detected, false, false, false).text {
                    Some(text) => accepted(detected, text, false),
                    None => DecisionSpec::Rejected(
                        RejectionSpec::BomMismatch(detected.charset.name()),
                    ),
                }
            },
            None => if detect::has_nul(bytes) {
                DecisionSpec::Binary
            } else {
                match decoder::whole_text(Charset::Utf8, bytes) {
                    Some(text) => if stats::has_iso_2022_escape(text) {
                        DecisionSpec::Rejected(RejectionSpec::Iso2022JpSignature)
                    } else {
                        accepted(plain_utf8(), text, false)
                    },
                    None => if detect::has_magic(prefix) {
                        DecisionSpec::Binary
                    } else {
                        classify_legacy(bytes)
                    },
                }
            },
        },
    }
}

/// The outcome of one strict pass.
pub struct PassResult {
    pub stats: Option<ValidationStats>,
    pub raw_is_multibyte_utf8: bool,
    pub segments_inconsistent: bool,
    /// How many detectors the segment scan consulted.
    pub detector_constructions: usize,
    /// How often the buffers of the round trip grew.
    pub roundtrip_allocations: usize,
}

impl PassResult {
    /// Whether this is the outcome that the pass has.
    pub open spec fn reports(&self, pass: PassSpec) -> bool {
        &&& match self.stats {
            Some(stats) => pass.text is Some && stats.describes(pass.text->Some_0),
            None => pass.text is None,
        }
        &&& self.raw_is_multibyte_utf8 == pass.raw_is_multibyte_utf8
        &&& self.segments_inconsistent == pass.segments_inconsistent
        &&& self.detector_constructions == pass.detectors
        &&& self.roundtrip_allocations <= pass.buffer_growths
    }

    fn invalid() -> (result: Self)
        ensures
            result.reports(failed_pass()),
    {
        PassResult {
            stats: None,
            raw_is_multibyte_utf8: false,
            segments_inconsistent: false,
            detector_constructions: 0,
            roundtrip_allocations: 0,
        }
    }
}

/// Which checks a pass makes beyond decoding.
#[derive(Clone, Copy, Debug)]
pub struct PassOptions {
    pub enforce_legacy_hard_checks: bool,
    pub scan_legacy_segments: bool,
    pub probe_raw_utf8: bool,
}

impl PassOptions {
    fn plain() -> (options: Self)
        ensures
            !options.enforce_legacy_hard_checks,
            !options.scan_legacy_segments,
            !options.probe_raw_utf8,
    {
        PassOptions {
            enforce_legacy_hard_checks: false,
            scan_legacy_segments: false,
            probe_raw_utf8: false,
        }
    }
}

/// Watches whether raw bytes are multi-byte UTF-8.
struct RawUtf8Probe {
    evidence: Utf8Evidence,
    has_non_ascii: bool,
}

impl RawUtf8Probe {
    spec fn describes(&self, bytes: Seq<u8>) -> bool {
        &&& self.evidence.mark() == utf8::utf8_run(bytes)
        &&& self.has_non_ascii == (segments::non_ascii_count(bytes) > 0)
    }

    fn new() -> (probe: Self)
        ensures
            probe.describes(Seq::empty()),
    {
        RawUtf8Probe { evidence: Utf8Evidence::new(), has_non_ascii: false }
    }

    fn push(&mut self, input: &[u8], seen: Ghost<Seq<u8>>)
        requires
            old(self).describes(seen@),
        ensures
            final(self).describes(seen@ + input@),
    {
        let mut index: usize = 0;
        assert(seen@ + input@.take(0) =~= seen@);
        while index < input.len()
            invariant
                index <= input.len(),
                self.describes(seen@ + input@.take(index as int)),
            decreases input.len() - index,
        {
            let byte: u8 = input[index];
            self.evidence.push(byte);
            if byte >= 0x80 {
                self.has_non_ascii = true;
            }
            proof {
                let longer = seen@ + input@.take(index + 1);
                assert(longer.drop_last() =~= seen@ + input@.take(index as int));
                assert(longer.last() == byte);
            }
            index += 1;
        }
        assert(input@.take(input@.len() as int) =~= input@);
    }

    fn is_multibyte_utf8(&self) -> (result: bool)
        ensures
            forall|bytes: Seq<u8>| #[trigger] self.describes(bytes) ==> result == multibyte_utf8(bytes),
    {
        proof {
            assert forall|bytes: Seq<u8>| #[trigger] self.describes(bytes) implies (
            self.evidence.mark() is Boundary <==> valid_utf8(bytes)) by {
                utf8::utf8_boundary_is_validity(bytes);
            }
        }
        self.has_non_ascii && self.evidence.is_complete_and_valid()
    }
}

/// The part of the content that lies before position `at` of the file.
spec fn content_before(bytes: Seq<u8>, bom_len: int, at: int) -> Seq<u8> {
    if at <= bom_len {
        Seq::empty()
    } else {
        bytes.subrange(bom_len, at)
    }
}

proof fn content_splits(bytes: Seq<u8>, bom_len: int, at: int, end: int, chunk: Seq<u8>)
    requires
        0 <= at <= end <= bytes.len(),
        0 <= bom_len <= bytes.len(),
        chunk == if end <= bom_len {
            Seq::<u8>::empty()
        } else if at <= bom_len {
            bytes.subrange(bom_len, end)
        } else {
            bytes.subrange(at, end)
        },
    ensures
        content_before(bytes, bom_len, at) + chunk == content_before(bytes, bom_len, end),
        content_before(bytes, bom_len, end) + content_after(bytes, bom_len, end) == bytes.skip(
            bom_len,
        ),
{
    assert(content_before(bytes, bom_len, at) + chunk =~= content_before(bytes, bom_len, end));
    assert(content_before(bytes, bom_len, end) + content_after(bytes, bom_len, end) =~= bytes.skip(
        bom_len,
    ));
}

/// The rest of the content.
spec fn content_after(bytes: Seq<u8>, bom_len: int, at: int) -> Seq<u8> {
    if at <= bom_len {
        bytes.skip(bom_len)
    } else {
        bytes.skip(at)
    }
}

proof fn disallowed_prefix(prefix: Seq<char>, all: Seq<char>)
    requires
        prefix.is_prefix_of(all),
        legacy::has_disallowed(prefix),
    ensures
        legacy::has_disallowed(all),
{
    let i = choose|i: int| 0 <= i < prefix.len() && legacy::is_disallowed(#[trigger] prefix[i]);
    assert(all.subrange(0, prefix.len() as int)[i] == all[i]);
    assert(legacy::is_disallowed(all[i]));
}

proof fn disallowed_concat(left: Seq<char>, right: Seq<char>)
    ensures
        legacy::has_disallowed(left + right) == (legacy::has_disallowed(left)
            || legacy::has_disallowed(right)),
{
    let all = left + right;
    if legacy::has_disallowed(left) {
        assert(left.is_prefix_of(all)) by {
            assert(all.subrange(0, left.len() as int) =~= left);
        }
        disallowed_prefix(left, all);
    }
    if legacy::has_disallowed(right) {
        let i = choose|i: int| 0 <= i < right.len() && legacy::is_disallowed(#[trigger] right[i]);
        assert(all[left.len() + i] == right[i]);
    }
    if legacy::has_disallowed(all) {
        let i = choose|i: int| 0 <= i < all.len() && legacy::is_disallowed(#[trigger] all[i]);
        if i < left.len() {
            assert(left[i] == all[i]);
        } else {
            assert(right[i - left.len()] == all[i]);
        }
    }
}

/// The checks of one pass, fed with the content chunk by chunk.
struct PassState {
    kind: EncodingKind,
    legacy_checks: bool,
    segment_check: bool,
    decoder: StrictDecoder,
    roundtrip: RoundTripVerifier,
    scanner: LegacySegmentScanner,
    segments_inconsistent: bool,
    stats: ValidationStats,
}

impl PassState {
    spec fn text(&self) -> Seq<char> {
        self.decoder.produced()
    }

    spec fn legacy_inv(&self, seen: Seq<u8>) -> bool {
        self.legacy_checks ==> {
            &&& !(self.kind@ is Utf32Le || self.kind@ is Utf32Be)
            &&& !legacy::has_disallowed(self.text())
            &&& self.roundtrip.wf()
            &&& self.roundtrip.name() == self.kind@.name()
            &&& self.roundtrip.text() == self.text()
            &&& self.roundtrip.source() == seen
        }
    }

    spec fn segment_inv(&self, seen: Seq<u8>) -> bool {
        &&& self.scanner.whole() == self.kind@.name()
        &&& !self.segments_inconsistent ==> self.scanner.wf()
        &&& self.segments_inconsistent ==> self.segment_check
        &&& self.segment_check ==> segments::scan_bytes(self.kind@.name(), Seq::empty(), seen)
            == if self.segments_inconsistent {
            Err::<Seq<u8>, SegmentScan>(SegmentScan::Inconsistent)
        } else {
            Ok::<Seq<u8>, SegmentScan>(self.scanner.pending())
        }
        &&& self.scanner.memory() == if self.segment_check {
            segments::blank_cache().scanned(self.kind@.name(), Seq::empty(), seen)
        } else {
            segments::blank_cache()
        }
    }

    #[verifier::opaque]
    spec fn inv(&self, seen: Seq<u8>) -> bool {
        &&& self.decoder.wf()
        &&& self.decoder.charset() == self.kind@
        &&& self.decoder.fed() == seen
        &&& self.stats.describes(self.text())
        &&& self.legacy_inv(seen)
        &&& self.segment_inv(seen)
    }

    spec fn same_pass(&self, other: &PassState) -> bool {
        &&& self.kind == other.kind
        &&& self.legacy_checks == other.legacy_checks
        &&& self.segment_check == other.segment_check
    }

    #[verifier::opaque]
    spec fn passes(&self, content: Seq<u8>) -> Option<(Seq<char>, bool)> {
        content_pass(self.kind@, content, self.legacy_checks, self.segment_check)
    }

    fn new(kind: EncodingKind, legacy_checks: bool, segment_check: bool) -> (state: Self)
        requires
            legacy_checks ==> !(kind@ is Utf32Le || kind@ is Utf32Be),
        ensures
            state.inv(Seq::empty()),
            state.kind == kind,
            state.legacy_checks == legacy_checks,
            state.segment_check == segment_check,
    {
        reveal(PassState::inv);
        PassState {
            kind,
            legacy_checks,
            segment_check,
            decoder: StrictDecoder::new(kind),
            roundtrip: RoundTripVerifier::new(kind.name()),
            scanner: LegacySegmentScanner::new(kind.name()),
            segments_inconsistent: false,
            stats: ValidationStats::new(),
        }
    }

    /// Applies the legacy checks to the text that a chunk added.
    fn check_legacy(
        &mut self,
        piece: &str,
        chunk: &[u8],
        seen: Ghost<Seq<u8>>,
        text: Ghost<Seq<char>>,
    ) -> (passed: bool)
        requires
            old(self).legacy_checks,
            !(old(self).kind@ is Utf32Le || old(self).kind@ is Utf32Be),
            !legacy::has_disallowed(text@),
            old(self).roundtrip.wf(),
            old(self).roundtrip.name() == old(self).kind@.name(),
            old(self).roundtrip.text() == text@,
            old(self).roundtrip.source() == seen@,
        ensures
            final(self).same_pass(&*old(self)),
            final(self).decoder == old(self).decoder,
            final(self).scanner == old(self).scanner,
            final(self).segments_inconsistent == old(self).segments_inconsistent,
            final(self).stats == old(self).stats,
            passed ==> {
                &&& !legacy::has_disallowed(text@ + piece@)
                &&& final(self).roundtrip.wf()
                &&& final(self).roundtrip.name() == old(self).kind@.name()
                &&& final(self).roundtrip.text() == text@ + piece@
                &&& final(self).roundtrip.source() == seen@ + chunk@
            },
            !passed ==> legacy::has_disallowed(text@ + piece@) || forall|
                more_text: Seq<char>,
                more_source: Seq<u8>,
            |
                #[trigger] legacy::legacy_bytes(
                    old(self).kind@.name(),
                    text@ + piece@ + more_text,
                ) != Some(#[trigger] (seen@ + chunk@ + more_source)),
    {
        self.roundtrip.observe_source(chunk);
        proof {
            disallowed_concat(text@, piece@);
        }
        if any_disallowed(piece) {
            return false;
        }
        self.roundtrip.push(piece)
    }

    /// Takes one chunk of the content. `false` means that the pass fails whatever follows.
    fn take_chunk<W: WorkCheckpoint>(&mut self, chunk: &[u8], work: &W, seen: Ghost<Seq<u8>>) -> (
    result: Result<bool, WorkStop>)
        requires
            old(self).inv(seen@),
            chunk.len() <= DECODE_CHUNK_BYTES,
        ensures
            final(self).same_pass(&*old(self)),
            work.never_stops() ==> result is Ok,
            result matches Err(stop) ==> work.stops_with(stop),
            match result {
                Ok(true) => final(self).inv(seen@ + chunk@),
                Ok(false) => forall|rest: Seq<u8>|
                    old(self).passes(#[trigger] (seen@ + chunk@ + rest)) is None,
                Err(_) => true,
            },
    {
        reveal(PassState::inv);
        reveal(PassState::passes);
        let ghost before = *self;
        let ghost charset = self.kind@;
        let ghost text = self.text();
        let ghost grown = seen@ + chunk@;
        let piece = match self.decoder.push(chunk, false) {
            Ok(piece) => piece,
            Err(_) => {
                assert forall|rest: Seq<u8>| before.passes(#[trigger] (grown + rest)) is None by {
                    assert(decoder::whole_text(charset, grown + rest) is None);
                }
                return Ok(false);
            },
        };
        let ghost longer = text + piece@;
        if self.legacy_checks {
            let passed = self.check_legacy(piece.as_str(), chunk, Ghost(seen@), Ghost(text));
            if !passed {
                proof {
                    assert forall|rest: Seq<u8>| before.passes(
                        #[trigger] (grown + rest),
                    ) is None by {
                        legacy_failure(charset, longer, grown, rest);
                    }
                }
                return Ok(false);
            }
        }
        self.stats.observe(piece.as_str());
        assert(self.stats.describes(longer));
        if self.segment_check {
            proof {
                segments::scan_bytes_concat(charset.name(), Seq::empty(), seen@, chunk@);
                segments::scanned_concat(
                    segments::blank_cache(),
                    charset.name(),
                    Seq::empty(),
                    seen@,
                    chunk@,
                );
            }
            if !self.segments_inconsistent {
                match self.scanner.push(chunk, work)? {
                    SegmentScan::Continue => {},
                    SegmentScan::Inconsistent => {
                        self.segments_inconsistent = true;
                    },
                    SegmentScan::CandidateInvalid => {
                        proof {
                            assert forall|rest: Seq<u8>| before.passes(
                                #[trigger] (grown + rest),
                            ) is None by {
                                segments::scan_bytes_concat(
                                    charset.name(),
                                    Seq::empty(),
                                    grown,
                                    rest,
                                );
                            }
                        }
                        return Ok(false);
                    },
                }
            }
        }
        Ok(true)
    }

    /// Ends the content.
    fn finish<W: WorkCheckpoint>(&mut self, work: &W, content: Ghost<Seq<u8>>) -> (result: Result<
        bool,
        WorkStop,
    >)
        requires
            old(self).inv(content@),
        ensures
            work.never_stops() ==> result is Ok,
            result matches Err(stop) ==> work.stops_with(stop),
            match result {
                Ok(true) => {
                    &&& old(self).passes(content@) matches Some((text, inconsistent))
                    &&& final(self).stats.describes(text)
                    &&& final(self).segments_inconsistent == inconsistent
                    &&& final(self).scanner.memory().consulted == if old(self).segment_check {
                        segments::consulted_detectors(old(self).kind@.name(), content@)
                    } else {
                        0
                    }
                    &&& old(self).legacy_checks && content@.len() <= usize::MAX
                        ==> final(self).roundtrip.allocations() <= 2 * legacy::growths(
                        content@.len(),
                        0,
                    )
                },
                Ok(false) => old(self).passes(content@) is None,
                Err(_) => true,
            },
    {
        reveal(PassState::inv);
        reveal(PassState::passes);
        let ghost charset = self.kind@;
        let ghost text = self.text();
        let none: Vec<u8> = Vec::new();
        assert(content@ + none@ =~= content@);
        let piece = match self.decoder.push(none.as_slice(), true) {
            Ok(piece) => piece,
            Err(_) => {
                return Ok(false);
            },
        };
        let ghost longer = text + piece@;
        if self.legacy_checks {
            let passed = self.check_legacy(
                piece.as_str(),
                none.as_slice(),
                Ghost(content@),
                Ghost(text),
            );
            proof {
                if !passed && !legacy::has_disallowed(longer) {
                    assert(longer + Seq::<char>::empty() =~= longer);
                    assert(content@ + none@ + Seq::<u8>::empty() =~= content@);
                    assert(legacy::legacy_bytes(
                        charset.name(),
                        text + piece@ + Seq::<char>::empty(),
                    ) != Some(content@ + none@ + Seq::<u8>::empty()));
                }
            }
            if !passed {
                return Ok(false);
            }
            if !self.roundtrip.finish() {
                return Ok(false);
            }
        }
        self.stats.observe(piece.as_str());
        assert(self.stats.describes(longer));
        if self.segment_check && !self.segments_inconsistent {
            match self.scanner.finish(work)? {
                SegmentScan::Continue => {},
                SegmentScan::Inconsistent => {
                    self.segments_inconsistent = true;
                },
                SegmentScan::CandidateInvalid => {
                    return Ok(false);
                },
            }
        }
        Ok(true)
    }
}

/// A text that fails the legacy checks on a prefix fails them as a whole.
proof fn legacy_failure(charset: Charset, prefix: Seq<char>, seen: Seq<u8>, rest: Seq<u8>)
    requires
        decoder::whole_text(charset, seen + rest) matches Some(all) ==> prefix.is_prefix_of(all),
        legacy::has_disallowed(prefix) || forall|more_text: Seq<char>, more_source: Seq<u8>|
            #[trigger] legacy::legacy_bytes(charset.name(), prefix + more_text) != Some(
                #[trigger] (seen + more_source),
            ),
    ensures
        forall|segment_check: bool|
            #[trigger] content_pass(charset, seen + rest, true, segment_check) is None,
{
    if decoder::whole_text(charset, seen + rest) is Some {
        let all = decoder::whole_text(charset, seen + rest)->Some_0;
        if legacy::has_disallowed(prefix) {
            disallowed_prefix(prefix, all);
        } else {
            let later = all.skip(prefix.len() as int);
            assert(all =~= prefix + later) by {
                assert(all.subrange(0, prefix.len() as int) =~= prefix);
            }
            assert(legacy::legacy_bytes(charset.name(), prefix + later) != Some(seen + rest));
        }
    }
}

/// Validates one immutable content in chunks.
pub struct EncodingPipeline<'a> {
    pub bytes: &'a [u8],
    pub chunk_bytes: usize,
}

impl<'a> EncodingPipeline<'a> {
    /// Whether the chunk size is usable.
    pub open spec fn wf(&self) -> bool {
        1 <= self.chunk_bytes <= DECODE_CHUNK_BYTES
    }

    /// One strict pass over the content.
    pub fn validate_selected<W: WorkCheckpoint>(
        &self,
        detected: &DetectedEncoding,
        options: PassOptions,
        work: &W,
    ) -> (result: Result<PassResult, WorkStop>)
        requires
            self.wf(),
            detected.bom_len <= self.bytes.len(),
        ensures
            work.never_stops() ==> result is Ok,
            result matches Err(stop) ==> work.stops_with(stop),
            result matches Ok(pass) ==> pass.reports(
                selected_pass(
                    self.bytes@,
                    detected@,
                    options.enforce_legacy_hard_checks,
                    options.scan_legacy_segments,
                    options.probe_raw_utf8,
                ),
            ),
    {
        work.check_work(WorkStage::CandidateValidation)?;
        let bytes = self.bytes;
        let kind = detected.kind;
        let bom_len = detected.bom_len;
        if options.enforce_legacy_hard_checks {
            match kind {
                EncodingKind::Utf32Le | EncodingKind::Utf32Be => {
                    return Ok(PassResult::invalid());
                },
                _ => {},
            }
        }
        let mut state = PassState::new(
            kind,
            options.enforce_legacy_hard_checks,
            options.scan_legacy_segments,
        );
        let mut probe = RawUtf8Probe::new();
        let mut at: usize = 0;
        let ghost content = bytes@.skip(bom_len as int);
        proof {
            assert(bytes@.take(0) =~= Seq::<u8>::empty());
            assert(content_before(bytes@, bom_len as int, 0) =~= Seq::<u8>::empty());
        }
        while at < bytes.len()
            invariant
                self.wf(),
                bytes@ == self.bytes@,
                bom_len <= bytes.len(),
                at <= bytes.len(),
                content == bytes@.skip(bom_len as int),
                detected@.charset == kind@,
                detected@.bom_len == bom_len,
                state.kind == kind,
                state.legacy_checks == options.enforce_legacy_hard_checks,
                state.segment_check == options.scan_legacy_segments,
                state.inv(content_before(bytes@, bom_len as int, at as int)),
                options.probe_raw_utf8 ==> probe.describes(bytes@.take(at as int)),
            decreases bytes.len() - at,
        {
            work.check_work(WorkStage::EncodingChunk)?;
            let end: usize = if bytes.len() - at > self.chunk_bytes {
                at + self.chunk_bytes
            } else {
                bytes.len()
            };
            let raw = slice_subrange(bytes, at, end);
            if options.probe_raw_utf8 {
                probe.push(raw, Ghost(bytes@.take(at as int)));
                assert(bytes@.take(at as int) + raw@ =~= bytes@.take(end as int));
            }
            let skipped: usize = if bom_len <= at {
                0
            } else if bom_len - at < raw.len() {
                bom_len - at
            } else {
                raw.len()
            };
            let chunk = slice_subrange(raw, skipped, raw.len());
            let ghost seen = content_before(bytes@, bom_len as int, at as int);
            let ghost rest = content_after(bytes@, bom_len as int, end as int);
            proof {
                if end <= bom_len {
                    assert(chunk@ =~= Seq::<u8>::empty());
                } else if at <= bom_len {
                    assert(chunk@ =~= bytes@.subrange(bom_len as int, end as int));
                } else {
                    assert(chunk@ =~= bytes@.subrange(at as int, end as int));
                }
                content_splits(bytes@, bom_len as int, at as int, end as int, chunk@);
            }
            let ghost here = state;
            if !state.take_chunk(chunk, work, Ghost(seen))? {
                proof {
                    assert(here.passes(seen + chunk@ + rest) is None);
                    reveal(PassState::passes);
                }
                return Ok(PassResult::invalid());
            }
            at = end;
        }
        work.check_work(WorkStage::EncodingChunk)?;
        proof {
            assert(content_before(bytes@, bom_len as int, bytes@.len() as int) =~= content);
            assert(bytes@.take(bytes@.len() as int) =~= bytes@);
        }
        reveal(PassState::passes);
        if !state.finish(work, Ghost(content))? {
            return Ok(PassResult::invalid());
        }
        work.check_stop()?;
        let raw_is_multibyte_utf8 = options.probe_raw_utf8 && probe.is_multibyte_utf8();
        Ok(
            PassResult {
                stats: Some(state.stats),
                raw_is_multibyte_utf8,
                segments_inconsistent: state.segments_inconsistent,
                detector_constructions: state.scanner.detector_constructions(),
                roundtrip_allocations: if options.enforce_legacy_hard_checks {
                    state.roundtrip.allocation_count()
                } else {
                    0
                },
            },
        )
    }

    /// Consults the detector and looks for a broken UTF-8 prefix.
    fn scan_nomination<W: WorkCheckpoint>(&self, work: &W) -> (result: Result<Nomination, WorkStop>)
        requires
            self.wf(),
        ensures
            work.never_stops() ==> result is Ok,
            result matches Err(stop) ==> work.stops_with(stop),
            result matches Ok(nomination) ==> {
                &&& nomination.encoding@ == codec::guessed_encoding(self.bytes@)
                &&& nomination.non_ascii_bytes == segments::non_ascii_count(self.bytes@)
                &&& match nomination.conflict_hex_offset {
                    Some(row) => conflict::whole_conflict(self.bytes@) == Some(row as nat),
                    None => conflict::whole_conflict(self.bytes@) is None,
                }
            },
    {
        let bytes = self.bytes;
        let mut scanner = Utf8PrefixScanner::new();
        let mut conflict_hex_offset: Option<usize> = None;
        let mut non_ascii_bytes: usize = 0;
        let mut at: usize = 0;
        assert(bytes@.take(0) =~= Seq::<u8>::empty());
        while at < bytes.len()
            invariant
                self.wf(),
                bytes@ == self.bytes@,
                at <= bytes.len(),
                scanner.describes(bytes@.take(at as int)),
                non_ascii_bytes == segments::non_ascii_count(bytes@.take(at as int)),
                non_ascii_bytes <= at,
                match conflict_hex_offset {
                    Some(row) => conflict::conflict_row(
                        bytes@.take(at as int),
                        utf8::utf8_run(bytes@.take(at as int)) is Rejected,
                    ) == Some(row as nat),
                    None => conflict::conflict_row(
                        bytes@.take(at as int),
                        utf8::utf8_run(bytes@.take(at as int)) is Rejected,
                    ) is None,
                },
            decreases bytes.len() - at,
        {
            work.check_work(WorkStage::EncodingChunk)?;
            let end: usize = if bytes.len() - at > self.chunk_bytes {
                at + self.chunk_bytes
            } else {
                bytes.len()
            };
            let chunk = slice_subrange(bytes, at, end);
            let ghost seen = bytes@.take(at as int);
            proof {
                assert(seen + chunk@ =~= bytes@.take(end as int));
                segments::non_ascii_count_concat(seen, chunk@);
                if utf8::utf8_run(seen) is Rejected {
                    utf8::utf8_valid_up_to_rejected(seen, chunk@);
                }
            }
            non_ascii_bytes = non_ascii_bytes + count_non_ascii(chunk);
            let found = scanner.push(chunk);
            if conflict_hex_offset.is_none() {
                conflict_hex_offset = found;
            }
            at = end;
        }
        work.check_work(WorkStage::EncodingChunk)?;
        assert(bytes@.take(bytes@.len() as int) =~= bytes@);
        if conflict_hex_offset.is_none() {
            conflict_hex_offset = scanner.finish();
        }
        Ok(Nomination { encoding: guess_encoding(bytes), non_ascii_bytes, conflict_hex_offset })
    }

    fn validate_explicit<W: WorkCheckpoint>(&self, prefix: &[u8], value: &str, work: &W) -> (
    result: Result<EncodingDecision, WorkStop>)
        requires
            self.wf(),
            prefix@ == detect::probe(self.bytes@),
        ensures
            work.never_stops() ==> result is Ok,
            result matches Err(stop) ==> work.stops_with(stop),
            result matches Ok(decision) ==> decision@ == classify(self.bytes@, Some(value@)),
    {
        let detected = match explicit_detected_encoding(value, prefix) {
            Ok(detected) => detected,
            Err(rejection) => {
                return Ok(EncodingDecision::Rejected(rejection));
            },
        };
        let options = PassOptions {
            enforce_legacy_hard_checks: false,
            scan_legacy_segments: false,
            probe_raw_utf8: is_legacy_encoding(detected.kind),
        };
        let pass = self.validate_selected(&detected, options, work)?;
        Ok(
            match pass.stats {
                Some(stats) => accept(detected, stats, pass.raw_is_multibyte_utf8),
                None => EncodingDecision::Rejected(
                    EncodingRejection::ExplicitMalformed { encoding: value.to_owned() },
                ),
            },
        )
    }

    fn validate_legacy<W: WorkCheckpoint>(&self, work: &W) -> (result: Result<
        EncodingDecision,
        WorkStop,
    >)
        requires
            self.wf(),
        ensures
            work.never_stops() ==> result is Ok,
            result matches Err(stop) ==> work.stops_with(stop),
            result matches Ok(decision) ==> decision@ == classify_legacy(self.bytes@),
    {
        let nomination = self.scan_nomination(work)?;
        if let Some(row) = nomination.conflict_hex_offset {
            return Ok(
                EncodingDecision::Rejected(
                    EncodingRejection::MixedOrInconsistent { conflict_hex_offset: Some(row) },
                ),
            );
        }
        let candidate = nomination.encoding;
        let detected = automatic(candidate);
        let mut nominated: Option<bool> = None;
        if nomination.non_ascii_bytes >= LEGACY_EVIDENCE_BYTES {
            let options = PassOptions {
                enforce_legacy_hard_checks: true,
                scan_legacy_segments: true,
                probe_raw_utf8: false,
            };
            let pass = self.validate_selected(&detected, options, work)?;
            nominated = Some(pass.stats.is_some());
            if let Some(stats) = pass.stats {
                if pass.segments_inconsistent {
                    return Ok(
                        EncodingDecision::Rejected(
                            EncodingRejection::MixedOrInconsistent { conflict_hex_offset: None },
                        ),
                    );
                }
                if !is_single_byte(candidate) {
                    return Ok(accept(detected, stats, false));
                }
            }
        }
        let mut candidates: Vec<&'static str> = Vec::new();
        let mut index: usize = 0;
        assert(rejection::name_views(candidates@) =~= Seq::<Seq<char>>::empty());
        while index < 5
            invariant
                self.wf(),
                index <= 5,
                candidate@ == codec::guessed_encoding(self.bytes@),
                match nominated {
                    Some(passed) => enough_evidence(self.bytes@) && passed == (nominated_pass(
                        self.bytes@,
                    ).text is Some),
                    None => !enough_evidence(self.bytes@),
                },
                rejection::name_views(candidates@) == fixed_candidates(
                    self.bytes@,
                    index as nat,
                ),
            decreases 5 - index,
        {
            let (label, name) = fixed_legacy_encoding(index);
            let known = match nominated {
                Some(passed) => if same_text(candidate, name) {
                    Some(passed)
                } else {
                    None
                },
                None => None,
            };
            let passed = match known {
                Some(passed) => {
                    work.check_work(WorkStage::CandidateValidation)?;
                    passed
                },
                None => {
                    let options = PassOptions {
                        enforce_legacy_hard_checks: true,
                        scan_legacy_segments: false,
                        probe_raw_utf8: false,
                    };
                    let pass = self.validate_selected(&automatic(name), options, work)?;
                    pass.stats.is_some()
                },
            };
            if passed {
                let ghost before = candidates@;
                candidates.push(label);
                assert(rejection::name_views(candidates@) =~= rejection::name_views(before).push(
                    label@,
                ));
            }
            index += 1;
        }
        assert(rejection::name_views(candidates@).len() == candidates@.len());
        Ok(
            if candidates.is_empty() {
                EncodingDecision::Rejected(EncodingRejection::Undecodable)
            } else {
                EncodingDecision::Rejected(EncodingRejection::Ambiguous { candidates })
            },
        )
    }

    /// Decides about the content.
    pub fn validate<W: WorkCheckpoint>(&self, explicit: Option<&str>, work: &W) -> (result: Result<
        EncodingDecision,
        WorkStop,
    >)
        requires
            self.wf(),
        ensures
            work.never_stops() ==> result is Ok,
            result matches Err(stop) ==> work.stops_with(stop),
            work.always_stops() ==> result is Err,
            result matches Ok(decision) ==> decision@ == classify(self.bytes@, str_view(explicit)),
    {
        work.check_stop()?;
        let prefix = if self.bytes.len() > BINARY_PROBE_BYTES {
            slice_subrange(self.bytes, 0, BINARY_PROBE_BYTES)
        } else {
            self.bytes
        };
        proof {
            assert(prefix@ =~= detect::probe(self.bytes@));
            nul_in_probe(self.bytes@);
        }
        if let Some(value) = explicit {
            return self.validate_explicit(prefix, value, work);
        }
        if let Some(detected) = bom_detected_encoding(prefix) {
            if let EncodingKind::Utf8 = detected.kind {
                if has_binary_nul(prefix) {
                    return Ok(EncodingDecision::Binary);
                }
            }
            let name = detected.kind.name();
            let pass = self.validate_selected(&detected, PassOptions::plain(), work)?;
            return Ok(
                match pass.stats {
                    Some(stats) => accept(detected, stats, false),
                    None => EncodingDecision::Rejected(
                        EncodingRejection::BomMismatch { encoding: name },
                    ),
                },
            );
        }
        if has_binary_nul(prefix) {
            return Ok(EncodingDecision::Binary);
        }
        let utf8 = DetectedEncoding {
            kind: EncodingKind::Utf8,
            bom_len: 0,
            source_encoding: None,
            origin: EncodingOrigin::Automatic,
        };
        assert(self.bytes@.skip(0) =~= self.bytes@);
        let pass = self.validate_selected(&utf8, PassOptions::plain(), work)?;
        if let Some(stats) = pass.stats {
            if stats.has_iso_2022_escape {
                return Ok(EncodingDecision::Rejected(EncodingRejection::Iso2022JpSignature));
            }
            return Ok(accept(utf8, stats, false));
        }
        if has_binary_magic(prefix) {
            return Ok(EncodingDecision::Binary);
        }
        self.validate_legacy(work)
    }
}

/// The characters of an optional string.
pub open spec fn str_view(value: Option<&str>) -> Option<Seq<char>> {
    match value {
        Some(value) => Some(value@),
        None => None,
    }
}

proof fn nul_in_probe(bytes: Seq<u8>)
    ensures
        detect::has_nul(detect::probe(bytes)) == detect::has_nul(bytes),
{
    let prefix = detect::probe(bytes);
    if detect::has_nul(bytes) {
        let i = choose|i: int|
            0 <= i < bytes.len() && i < BINARY_PROBE_BYTES && #[trigger] bytes[i] == 0;
        assert(prefix[i] == 0);
    }
    if detect::has_nul(prefix) {
        let i = choose|i: int|
            0 <= i < prefix.len() && i < BINARY_PROBE_BYTES && #[trigger] prefix[i] == 0;
        assert(bytes[i] == 0);
    }
}

struct Nomination {
    encoding: &'static str,
    non_ascii_bytes: usize,
    conflict_hex_offset: Option<usize>,
}

fn fixed_legacy_encoding(index: usize) -> (entry: (&'static str, &'static str))
    requires
        index < 5,
    ensures
        entry.0@ == fixed_label(index as int),
        entry.1@ == fixed_name(index as int),
{
    if index == 0 {
        ("windows-1252", "windows-1252")
    } else if index == 1 {
        ("gbk", "GBK")
    } else if index == 2 {
        ("shift_jis", "Shift_JIS")
    } else if index == 3 {
        ("big5", "Big5")
    } else {
        ("euc-kr", "EUC-KR")
    }
}

fn automatic(name: &'static str) -> (detected: DetectedEncoding)
    ensures
        detected@ == automatic_detected(name@),
{
    DetectedEncoding {
        kind: kind_of(name),
        bom_len: 0,
        source_encoding: Some(name),
        origin: EncodingOrigin::Automatic,
    }
}

fn accept(detected: DetectedEncoding, stats: ValidationStats, warning: bool) -> (decision:
    EncodingDecision)
    ensures
        forall|text: Seq<char>|
            #[trigger] stats.describes(text) ==> decision@ == accepted(detected@, text, warning),
{
    EncodingDecision::Text(
        ValidatedFileEncoding {
            total_lines: stats.total_lines(),
            has_trailing_newline: stats.has_trailing_newline,
            explicit_utf8_warning: warning,
            detected,
        },
    )
}

/// Decides about one immutable content, going on only while `work` allows it.
pub fn validate_snapshot_encoding<W: WorkCheckpoint>(
    bytes: &[u8],
    explicit: Option<&str>,
    work: &W,
) -> (result: Result<EncodingDecision, WorkStop>)
    ensures
        work.never_stops() ==> result is Ok,
        result matches Err(stop) ==> work.stops_with(stop),
        work.always_stops() ==> result is Err,
        result matches Ok(decision) ==> decision@ == classify(bytes@, str_view(explicit)),
{
    work.check_stop()?;
    let pipeline = EncodingPipeline { bytes, chunk_bytes: DECODE_CHUNK_BYTES };
    let result = pipeline.validate(explicit, work);
    work.check_stop()?;
    result
}

/// Decides about one content without interruption.
pub fn validate_source_encoding(bytes: &[u8], explicit: Option<&str>) -> (decision:
    EncodingDecision)
    ensures
        decision@ == classify(bytes@, str_view(explicit)),
{
    let work = Uninterrupted;
    match validate_snapshot_encoding(bytes, explicit, &work) {
        Ok(decision) => decision,
        Err(_) => EncodingDecision::Binary,
    }
}

/// Decoded text with the source encoding that must be disclosed.
#[derive(Clone, Debug, PartialEq, Eq)]
pub struct DecodedText {
    /// The text.
    pub text: String,
    /// Canonical name of an encoding other than UTF-8.
    pub source_encoding: Option<String>,
}

/// The text of a trusted content.
pub open spec fn decoded_content(bytes: Seq<u8>, detected: DetectedSpec) -> Option<Seq<char>> {
    decoder::whole_text(detected.charset, bytes.skip(detected.bom_len as int))
}

/// Decodes bytes that are trusted text; `None` for binary, ambiguous or malformed content.
pub fn decode_text(bytes: &[u8]) -> (result: Option<DecodedText>)
    ensures
        match classify(bytes@, None) {
            DecisionSpec::Text { detected, .. } => {
                &&& result matches Some(decoded)
                &&& decoded_content(bytes@, detected) == Some(decoded.text@)
                &&& match decoded.source_encoding {
                    Some(name) => detected.source_encoding == Some(name@),
                    None => detected.source_encoding is None,
                }
            },
            _ => result is None,
        },
{
    match validate_source_encoding(bytes, None) {
        EncodingDecision::Text(validated) => {
            proof {
                text_decision_decodes(bytes@, None);
            }
            match decode_bytes(bytes, &validated.detected) {
                Some(text) => Some(
                    DecodedText {
                        text,
                        source_encoding: match validated.detected.source_encoding {
                            Some(name) => Some(name.to_owned()),
                            None => None,
                        },
                    },
                ),
                None => None,
            }
        },
        _ => None,
    }
}

/// A content accepted as text decodes in the encoding that it was accepted in, and its byte
/// order mark lies within it.
pub proof fn text_decision_decodes(bytes: Seq<u8>, explicit: Option<Seq<char>>)
    ensures
        classify(bytes, explicit) matches DecisionSpec::Text { detected, total_lines, .. } ==> {
            &&& detected.bom_len <= bytes.len()
            &&& decoded_content(bytes, detected) matches Some(text)
            &&& total_lines == stats::line_total(text)
        },
{
    let prefix = detect::probe(bytes);
    detect::bom_needs_four_bytes(prefix, Seq::empty());
    assert(bytes.skip(0) =~= bytes);
}

/// Decodes a whole content in a selected encoding.
pub fn decode_bytes(bytes: &[u8], detected: &DetectedEncoding) -> (result: Option<String>)
    ensures
        match result {
            Some(text) => detected.bom_len <= bytes.len() && decoded_content(bytes@, detected@)
                == Some(text@),
            None => detected.bom_len > bytes.len() || decoded_content(bytes@, detected@) is None,
        },
{
    if detected.bom_len > bytes.len() {
        return None;
    }
    let content = slice_subrange(bytes, detected.bom_len, bytes.len());
    assert(content@ =~= bytes@.skip(detected.bom_len as int));
    decode_whole(detected.kind, content)
}

} // verus!
