//! Classification of a content while it is read. A verdict before the end is handed out only
//! when no continuation can change it.

use crate::encoding::conflict;
use crate::encoding::conflict::Utf8PrefixScanner;
use crate::encoding::decoder;
use crate::encoding::decoder::{Charset, EncodingKind, StrictDecoder};
use crate::encoding::detect;
use crate::encoding::detect::{
    bom_detected_encoding, explicit_detected_encoding, has_binary_magic, has_binary_nul,
    DetectedSpec, BINARY_PROBE_BYTES,
};
use crate::encoding::pipeline;
use crate::encoding::pipeline::DecisionSpec;
use crate::encoding::rejection::{EncodingRejection, RejectionSpec};
use crate::encoding::utf8;
use vstd::prelude::*;
use vstd::slice::slice_subrange;
use vstd::string::*;

verus! {

/// Bytes read before the larger chunks; the binary probe sees exactly these.
pub const PREFLIGHT_BYTES: usize = 8192;

/// Why no fallback encoding can overturn the rejection of mixed content.
#[derive(Clone, Copy, Debug, PartialEq, Eq, Structural)]
pub enum FallbackTerminalState {
    Absent,
    PermanentlyMalformed,
}

/// A reason that permits reading to stop before the end, because no continuation changes the
/// verdict.
#[derive(Clone, Debug, PartialEq, Eq)]
#[allow(inconsistent_fields)]
pub enum TerminalProof {
    NulWithinFrozenProbe,
    BinaryMagicAfterUtf8Failure,
    ExplicitDecoderMalformed { encoding: String },
    BomDecoderMalformed { encoding: &'static str },
    AutomaticRejected { conflict_hex_offset: usize, fallback: FallbackTerminalState },
}

/// The mathematical value of a [`TerminalProof`].
pub enum ProofSpec {
    NulWithinFrozenProbe,
    BinaryMagicAfterUtf8Failure,
    ExplicitDecoderMalformed(Seq<char>),
    BomDecoderMalformed(Seq<char>),
    AutomaticRejected(nat, FallbackTerminalState),
}

impl View for TerminalProof {
    type V = ProofSpec;

    open spec fn view(&self) -> ProofSpec {
        match self {
            TerminalProof::NulWithinFrozenProbe => ProofSpec::NulWithinFrozenProbe,
            TerminalProof::BinaryMagicAfterUtf8Failure => ProofSpec::BinaryMagicAfterUtf8Failure,
            TerminalProof::ExplicitDecoderMalformed { encoding } => {
                ProofSpec::ExplicitDecoderMalformed(encoding@)
            },
            TerminalProof::BomDecoderMalformed { encoding } => {
                ProofSpec::BomDecoderMalformed(encoding@)
            },
            TerminalProof::AutomaticRejected { conflict_hex_offset, fallback } => {
                ProofSpec::AutomaticRejected(*conflict_hex_offset as nat, *fallback)
            },
        }
    }
}

impl ProofSpec {
    /// The rejection that a proof stands for; `None` for binary content.
    pub open spec fn rejection(self) -> Option<RejectionSpec> {
        match self {
            ProofSpec::NulWithinFrozenProbe => None,
            ProofSpec::BinaryMagicAfterUtf8Failure => None,
            ProofSpec::ExplicitDecoderMalformed(encoding) => Some(
                RejectionSpec::ExplicitMalformed(encoding),
            ),
            ProofSpec::BomDecoderMalformed(encoding) => Some(RejectionSpec::BomMismatch(encoding)),
            ProofSpec::AutomaticRejected(row, _) => Some(
                RejectionSpec::MixedOrInconsistent(Some(row as usize)),
            ),
        }
    }

    /// The verdict that a proof stands for.
    pub open spec fn disposition(self) -> DispositionSpec {
        match self.rejection() {
            Some(rejection) => DispositionSpec::Rejected(rejection),
            None => DispositionSpec::Binary,
        }
    }
}

impl TerminalProof {
    /// The rejection that a proof stands for; `None` for binary content.
    pub fn rejection(&self) -> (rejection: Option<EncodingRejection>)
        ensures
            match rejection {
                Some(rejection) => self@.rejection() == Some(rejection@),
                None => self@.rejection() is None,
            },
    {
        match self {
            TerminalProof::NulWithinFrozenProbe => None,
            TerminalProof::BinaryMagicAfterUtf8Failure => None,
            TerminalProof::ExplicitDecoderMalformed { encoding } => Some(
                EncodingRejection::ExplicitMalformed { encoding: encoding.clone() },
            ),
            TerminalProof::BomDecoderMalformed { encoding } => Some(
                EncodingRejection::BomMismatch { encoding: *encoding },
            ),
            TerminalProof::AutomaticRejected { conflict_hex_offset, fallback } => Some(
                EncodingRejection::MixedOrInconsistent {
                    conflict_hex_offset: Some(*conflict_hex_offset),
                },
            ),
        }
    }
}

/// The verdict about a whole content, the fallback encoding included.
pub enum DispositionSpec {
    Text { used_fallback: bool },
    Binary,
    Rejected(RejectionSpec),
}

/// The verdict about a content: what its encoding is found to be, or else the fallback, unless
/// an encoding was asked for or a byte order mark settled the matter.
pub open spec fn disposition(
    bytes: Seq<u8>,
    explicit: Option<Seq<char>>,
    fallback: Option<Seq<char>>,
) -> DispositionSpec {
    match pipeline::classify(bytes, explicit) {
        DecisionSpec::Text { .. } => DispositionSpec::Text { used_fallback: false },
        DecisionSpec::Binary => DispositionSpec::Binary,
        DecisionSpec::Rejected(rejection) => if explicit is None && !(rejection is BomMismatch)
            && fallback is Some && pipeline::classify(bytes, fallback) is Text {
            DispositionSpec::Text { used_fallback: true }
        } else {
            DispositionSpec::Rejected(rejection)
        },
    }
}

/// Whether the probe holds all that it will ever hold.
pub open spec fn settled(seen: Seq<u8>) -> bool {
    seen.len() >= PREFLIGHT_BYTES
}

/// The label that is found to select no encoding once four bytes are there.
pub open spec fn bad_label(
    explicit: Option<Seq<char>>,
    fallback: Option<Seq<char>>,
    seen: Seq<u8>,
) -> Option<Seq<char>> {
    match explicit {
        Some(value) => if detect::explicit_charset(value) is None {
            Some(value)
        } else {
            None
        },
        None => match fallback {
            Some(value) => if detect::bom_detected(seen) is None && detect::explicit_charset(
                value,
            ) is None {
                Some(value)
            } else {
                None
            },
            None => None,
        },
    }
}

/// The reason to stop after these bytes.
pub open spec fn terminal_spec(
    explicit: Option<Seq<char>>,
    fallback: Option<Seq<char>>,
    seen: Seq<u8>,
) -> Option<ProofSpec> {
    if seen.len() < 4 {
        None
    } else {
        match explicit {
            Some(value) => match detect::explicit_detected(value, seen) {
                Some(detected) => if decoder::prefix_text(
                    detected.charset,
                    seen.skip(detected.bom_len as int),
                ) is None {
                    Some(ProofSpec::ExplicitDecoderMalformed(value))
                } else {
                    None
                },
                None => None,
            },
            None => match detect::bom_detected(seen) {
                Some(detected) => if detected.charset is Utf8 && detect::has_nul(seen) {
                    Some(ProofSpec::NulWithinFrozenProbe)
                } else if decoder::prefix_text(
                    detected.charset,
                    seen.skip(detected.bom_len as int),
                ) is None && (!(detected.charset is Utf8) || settled(seen)) {
                    Some(ProofSpec::BomDecoderMalformed(detected.charset.name()))
                } else {
                    None
                },
                None => automatic_terminal(fallback, seen),
            },
        }
    }
}

/// The reason to stop where neither a label nor a mark decides.
pub open spec fn automatic_terminal(fallback: Option<Seq<char>>, seen: Seq<u8>) -> Option<
    ProofSpec,
> {
    let broken = utf8::utf8_run(seen) is Rejected;
    if detect::has_nul(seen) {
        Some(ProofSpec::NulWithinFrozenProbe)
    } else if !settled(seen) {
        None
    } else if broken && detect::has_magic(detect::probe(seen)) {
        Some(ProofSpec::BinaryMagicAfterUtf8Failure)
    } else {
        match (conflict::conflict_row(seen, broken), fallback) {
            (None, _) => None,
            (Some(row), None) => Some(
                ProofSpec::AutomaticRejected(row, FallbackTerminalState::Absent),
            ),
            (Some(row), Some(value)) => if fallback_broken(value, seen) {
                Some(
                    ProofSpec::AutomaticRejected(row, FallbackTerminalState::PermanentlyMalformed),
                )
            } else {
                None
            },
        }
    }
}

/// Whether the bytes can no longer decode in the fallback encoding.
pub open spec fn fallback_broken(value: Seq<char>, seen: Seq<u8>) -> bool {
    detect::explicit_charset(value) matches Some(charset) && decoder::prefix_text(charset, seen)
        is None
}

/// A strict decoder that is only asked whether it failed.
pub struct StrictStreamingValidator {
    decoder: StrictDecoder,
    malformed: bool,
    charset: Ghost<Charset>,
    fed: Ghost<Seq<u8>>,
}

impl StrictStreamingValidator {
    /// The encoding decoded.
    pub closed spec fn charset(&self) -> Charset {
        self.charset@
    }

    /// Everything fed so far.
    pub closed spec fn fed(&self) -> Seq<u8> {
        self.fed@
    }

    /// Whether a failure, once found, is for good.
    pub closed spec fn wf(&self) -> bool {
        if self.malformed {
            never_decodes(self.charset@, self.fed@)
        } else {
            &&& self.decoder.wf()
            &&& self.decoder.charset() == self.charset@
            &&& self.decoder.fed() == self.fed@
        }
    }

    /// A validator that was fed nothing.
    pub fn new(kind: EncodingKind) -> (validator: Self)
        ensures
            validator.wf(),
            validator.charset() == kind@,
            validator.fed() == Seq::<u8>::empty(),
    {
        StrictStreamingValidator {
            decoder: StrictDecoder::new(kind),
            malformed: false,
            charset: Ghost(kind@),
            fed: Ghost(Seq::empty()),
        }
    }

    /// Feeds one more chunk and says whether what was fed can never decode.
    pub fn feed(&mut self, input: &[u8]) -> (malformed: bool)
        requires
            old(self).wf(),
        ensures
            final(self).wf(),
            final(self).charset() == old(self).charset(),
            final(self).fed() == old(self).fed() + input@,
            malformed == (decoder::prefix_text(final(self).charset(), final(self).fed()) is None),
            malformed ==> never_decodes(final(self).charset(), final(self).fed()),
    {
        let ghost charset = self.charset@;
        let ghost before = self.fed@;
        let ghost total = self.fed@ + input@;
        self.fed = Ghost(total);
        if self.malformed {
            proof {
                assert forall|more: Seq<u8>|
                    decoder::prefix_text(charset, #[trigger] (total + more)) is None
                        && decoder::whole_text(charset, total + more) is None by {
                    assert(total + more =~= before + (input@ + more));
                }
                assert(total + Seq::<u8>::empty() =~= total);
            }
            return true;
        }
        match self.decoder.push(input, false) {
            Ok(_) => false,
            Err(_) => {
                self.malformed = true;
                assert(total + Seq::<u8>::empty() =~= total);
                true
            },
        }
    }
}

/// Whether no stream that begins with these bytes decodes.
pub open spec fn never_decodes(charset: Charset, fed: Seq<u8>) -> bool {
    forall|more: Seq<u8>|
        {
            &&& decoder::prefix_text(charset, #[trigger] (fed + more)) is None
            &&& decoder::whole_text(charset, fed + more) is None
        }
}

/// A decoder with what it found, for content that one encoding decides about.
pub struct SelectedMode {
    pub validator: StrictStreamingValidator,
    pub kind: EncodingKind,
    pub bom_len: usize,
    pub malformed: bool,
}

impl SelectedMode {
    spec fn wf(&self, detected: DetectedSpec, seen: Seq<u8>) -> bool {
        &&& detected.charset == self.kind@
        &&& detected.bom_len == self.bom_len
        &&& self.bom_len <= seen.len()
        &&& self.validator.wf()
        &&& self.validator.charset() == detected.charset
        &&& self.validator.fed() == seen.skip(self.bom_len as int)
        &&& self.malformed == (decoder::prefix_text(
            detected.charset,
            seen.skip(detected.bom_len as int),
        ) is None)
        &&& self.malformed ==> never_decodes(detected.charset, seen.skip(detected.bom_len as int))
    }

    fn start(kind: EncodingKind, bom_len: usize, seen: &[u8]) -> (mode: Self)
        requires
            bom_len <= seen.len(),
            seen.len() <= PREFLIGHT_BYTES,
        ensures
            forall|detected: DetectedSpec|
                detected.charset == kind@ && detected.bom_len == bom_len ==> #[trigger] mode.wf(
                    detected,
                    seen@,
                ),
            mode.kind == kind,
    {
        let mut validator = StrictStreamingValidator::new(kind);
        let content = slice_subrange(seen, bom_len, seen.len());
        let malformed = validator.feed(content);
        proof {
            assert(Seq::<u8>::empty() + content@ =~= seen@.skip(bom_len as int));
        }
        SelectedMode { validator, kind, bom_len, malformed }
    }

    fn feed(&mut self, input: &[u8], seen: Ghost<Seq<u8>>, detected: Ghost<DetectedSpec>)
        requires
            old(self).wf(detected@, seen@),
        ensures
            final(self).wf(detected@, seen@ + input@),
            final(self).kind == old(self).kind,
    {
        self.malformed = self.validator.feed(input);
        proof {
            assert(seen@.skip(self.bom_len as int) + input@ =~= (seen@ + input@).skip(
                self.bom_len as int,
            ));
        }
    }
}

/// What is known of content that no label and no mark decides about.
pub struct AutomaticMode {
    pub utf8: StrictStreamingValidator,
    pub utf8_malformed: bool,
    pub utf8_conflict: Utf8PrefixScanner,
    pub conflict_hex_offset: Option<usize>,
    pub fallback: Option<SelectedMode>,
}

impl AutomaticMode {
    spec fn wf(&self, fallback: Option<Seq<char>>, seen: Seq<u8>) -> bool {
        let broken = utf8::utf8_run(seen) is Rejected;
        &&& self.utf8.wf()
        &&& self.utf8.charset() is Utf8
        &&& self.utf8.fed() == seen
        &&& self.utf8_malformed == broken
        &&& self.utf8_conflict.describes(seen)
        &&& match self.conflict_hex_offset {
            Some(row) => conflict::conflict_row(seen, broken) == Some(row as nat),
            None => conflict::conflict_row(seen, broken) is None,
        }
        &&& match (self.fallback, fallback) {
            (Some(mode), Some(value)) => {
                &&& detect::explicit_charset(value) is Some
                &&& mode.bom_len == 0
                &&& mode.wf(fallback_detected(value), seen)
            },
            (None, None) => true,
            _ => false,
        }
    }

    fn feed(&mut self, input: &[u8], seen: Ghost<Seq<u8>>, fallback: Ghost<Option<Seq<char>>>)
        requires
            old(self).wf(fallback@, seen@),
        ensures
            final(self).wf(fallback@, seen@ + input@),
    {
        let ghost total = seen@ + input@;
        let found = self.utf8_conflict.push(input);
        self.utf8_malformed = self.utf8.feed(input);
        if self.conflict_hex_offset.is_none() {
            self.conflict_hex_offset = found;
        }
        let mut mode: Option<SelectedMode> = None;
        core::mem::swap(&mut mode, &mut self.fallback);
        if let Some(mut mode) = mode {
            let ghost detected = fallback_detected(fallback@->Some_0);
            mode.feed(input, Ghost(seen@), Ghost(detected));
            self.fallback = Some(mode);
        }
        proof {
            if utf8::utf8_run(seen@) is Rejected {
                utf8::utf8_valid_up_to_rejected(seen@, input@);
            }
        }
    }
}

/// What the fallback label stands for in content without a byte order mark.
pub open spec fn fallback_detected(value: Seq<char>) -> DetectedSpec {
    DetectedSpec {
        charset: detect::explicit_charset(value)->Some_0,
        bom_len: 0,
        source_encoding: detect::disclosed(detect::explicit_charset(value)->Some_0),
        origin: detect::OriginSpec::Explicit(value),
    }
}

enum ClassifierMode {
    Explicit(SelectedMode),
    Bom(SelectedMode),
    Automatic(AutomaticMode),
}

proof fn nul_in_either(left: Seq<u8>, right: Seq<u8>)
    requires
        left.len() + right.len() <= BINARY_PROBE_BYTES,
    ensures
        detect::has_nul(left + right) == (detect::has_nul(left) || detect::has_nul(right)),
{
    let both = left + right;
    if detect::has_nul(left) {
        let i = choose|i: int|
            0 <= i < left.len() && i < BINARY_PROBE_BYTES && #[trigger] left[i] == 0;
        assert(both[i] == 0);
    }
    if detect::has_nul(right) {
        let i = choose|i: int|
            0 <= i < right.len() && i < BINARY_PROBE_BYTES && #[trigger] right[i] == 0;
        assert(both[left.len() + i] == 0);
    }
    if detect::has_nul(both) {
        let i = choose|i: int|
            0 <= i < both.len() && i < BINARY_PROBE_BYTES && #[trigger] both[i] == 0;
        if i < left.len() {
            assert(left[i] == 0);
        } else {
            assert(right[i - left.len()] == 0);
        }
    }
}

/// Classifies a content while it is read.
pub struct CaptureClassifier {
    explicit: Option<String>,
    fallback: Option<String>,
    probe: Vec<u8>,
    probe_nul: bool,
    mode: Option<ClassifierMode>,
    seen: Ghost<Seq<u8>>,
}

/// The view of an optional label.
pub open spec fn label_of(label: Option<String>) -> Option<Seq<char>> {
    match label {
        Some(label) => Some(label@),
        None => None,
    }
}

proof fn marks_settle(seen: Seq<u8>, more: Seq<u8>)
    requires
        seen.len() >= 4,
    ensures
        detect::bom_detected(seen + more) == detect::bom_detected(seen),
        forall|charset: Charset|
            #[trigger] detect::matching_bom(charset, seen + more) == detect::matching_bom(
                charset,
                seen,
            ),
        forall|charset: Charset| #[trigger] detect::matching_bom(charset, seen) <= 4,
        detect::bom_detected(seen) is None ==> forall|charset: Charset| #[trigger]
            detect::matching_bom(charset, seen) == 0,
        detect::bom_detected(detect::probe(seen)) == detect::bom_detected(seen),
        forall|charset: Charset| #[trigger]
            detect::matching_bom(charset, detect::probe(seen)) == detect::matching_bom(
                charset,
                seen,
            ),
{
    assert forall|left: Seq<u8>, magic: Seq<u8>, right: Seq<u8>|
        magic.len() <= 4 && left.len() >= 4 && right.len() >= 4 && left.take(4)
            == right.take(4) implies #[trigger] detect::starts_with_spec(left, magic)
        == #[trigger] detect::starts_with_spec(right, magic) by {
        assert(left.take(magic.len() as int) =~= left.take(4).take(magic.len() as int));
        assert(right.take(magic.len() as int) =~= right.take(4).take(magic.len() as int));
    }
    assert((seen + more).take(4) =~= seen.take(4));
    assert(detect::probe(seen).take(4) =~= seen.take(4));
}

proof fn nul_settles(seen: Seq<u8>, more: Seq<u8>)
    ensures
        detect::has_nul(seen) ==> detect::has_nul(seen + more),
        settled(seen) ==> detect::has_nul(seen + more) == detect::has_nul(seen),
        settled(seen) ==> detect::probe(seen + more) == detect::probe(seen),
        detect::has_nul(detect::probe(seen)) == detect::has_nul(seen),
{
    if detect::has_nul(seen) {
        let i = choose|i: int|
            0 <= i < seen.len() && i < BINARY_PROBE_BYTES && #[trigger] seen[i] == 0;
        assert((seen + more)[i] == 0);
        assert(detect::probe(seen)[i] == 0);
    }
    if detect::has_nul(detect::probe(seen)) {
        let i = choose|i: int|
            0 <= i < detect::probe(seen).len() && i < BINARY_PROBE_BYTES && #[trigger] detect::probe(
                seen,
            )[i] == 0;
        assert(seen[i] == 0);
    }
    if settled(seen) {
        assert(detect::probe(seen + more) =~= detect::probe(seen));
        if detect::has_nul(seen + more) {
            let i = choose|i: int|
                0 <= i < (seen + more).len() && i < BINARY_PROBE_BYTES && #[trigger] (seen
                    + more)[i] == 0;
            assert(seen[i] == 0);
        }
    }
}

/// Whether a reason to stop is backed by decoders that failed for good.
pub open spec fn backed(
    explicit: Option<Seq<char>>,
    fallback: Option<Seq<char>>,
    seen: Seq<u8>,
    reason: ProofSpec,
) -> bool {
    match reason {
        ProofSpec::ExplicitDecoderMalformed(value) => {
            let detected = detect::explicit_detected(value, seen)->Some_0;
            never_decodes(detected.charset, seen.skip(detected.bom_len as int))
        },
        ProofSpec::BomDecoderMalformed(_) => {
            let detected = detect::bom_detected(seen)->Some_0;
            never_decodes(detected.charset, seen.skip(detected.bom_len as int))
        },
        ProofSpec::AutomaticRejected(_, FallbackTerminalState::PermanentlyMalformed) => {
            never_decodes(detect::explicit_charset(fallback->Some_0)->Some_0, seen)
        },
        _ => true,
    }
}

/// A reason to stop that is backed holds for every continuation: the verdict about the whole
/// content is the one it stands for.
pub proof fn terminal_proof_is_final(
    explicit: Option<Seq<char>>,
    fallback: Option<Seq<char>>,
    seen: Seq<u8>,
    more: Seq<u8>,
)
    requires
        terminal_spec(explicit, fallback, seen) is Some,
        backed(explicit, fallback, seen, terminal_spec(explicit, fallback, seen)->Some_0),
    ensures
        disposition(seen + more, explicit, fallback) == terminal_spec(
            explicit,
            fallback,
            seen,
        )->Some_0.disposition(),
{
    match explicit {
        Some(value) => explicit_final(value, fallback, seen, more),
        None => match detect::bom_detected(seen) {
            Some(_) => bom_final(fallback, seen, more),
            None => automatic_final(fallback, seen, more),
        },
    }
}

proof fn explicit_final(
    value: Seq<char>,
    fallback: Option<Seq<char>>,
    seen: Seq<u8>,
    more: Seq<u8>,
)
    requires
        terminal_spec(Some(value), fallback, seen) is Some,
        backed(Some(value), fallback, seen, terminal_spec(Some(value), fallback, seen)->Some_0),
    ensures
        disposition(seen + more, Some(value), fallback) == terminal_spec(
            Some(value),
            fallback,
            seen,
        )->Some_0.disposition(),
{
    let all = seen + more;
    marks_settle(seen, more);
    marks_settle(all, Seq::empty());
    let detected = detect::explicit_detected(value, seen)->Some_0;
    assert(detect::explicit_detected(value, detect::probe(all)) == Some(detected));
    let content = seen.skip(detected.bom_len as int);
    assert(all.skip(detected.bom_len as int) =~= content + more);
    assert(decoder::whole_text(detected.charset, content + more) is None);
}

proof fn bom_final(fallback: Option<Seq<char>>, seen: Seq<u8>, more: Seq<u8>)
    requires
        detect::bom_detected(seen) is Some,
        terminal_spec(None, fallback, seen) is Some,
        backed(None, fallback, seen, terminal_spec(None, fallback, seen)->Some_0),
    ensures
        disposition(seen + more, None, fallback) == terminal_spec(
            None,
            fallback,
            seen,
        )->Some_0.disposition(),
{
    let all = seen + more;
    marks_settle(seen, more);
    marks_settle(all, Seq::empty());
    nul_settles(seen, more);
    detect::bom_needs_four_bytes(seen, more);
    let detected = detect::bom_detected(seen)->Some_0;
    assert(detect::bom_detected(detect::probe(all)) == Some(detected));
    if !(terminal_spec(None, fallback, seen)->Some_0 is NulWithinFrozenProbe) {
        let content = seen.skip(detected.bom_len as int);
        assert(all.skip(detected.bom_len as int) =~= content + more);
        assert(decoder::whole_text(detected.charset, content + more) is None);
    }
}

proof fn automatic_final(fallback: Option<Seq<char>>, seen: Seq<u8>, more: Seq<u8>)
    requires
        detect::bom_detected(seen) is None,
        terminal_spec(None, fallback, seen) is Some,
        backed(None, fallback, seen, terminal_spec(None, fallback, seen)->Some_0),
    ensures
        disposition(seen + more, None, fallback) == terminal_spec(
            None,
            fallback,
            seen,
        )->Some_0.disposition(),
{
    let all = seen + more;
    let found = terminal_spec(None, fallback, seen)->Some_0;
    marks_settle(seen, more);
    marks_settle(all, Seq::empty());
    nul_settles(seen, more);
    assert(detect::bom_detected(detect::probe(all)) is None);
    if !(found is NulWithinFrozenProbe) {
        utf8::utf8_valid_up_to_rejected(seen, more);
        utf8::utf8_boundary_is_validity(all);
        assert(decoder::whole_text(Charset::Utf8, all) is None);
        if let ProofSpec::AutomaticRejected(row, state) = found {
            conflict_stays(seen, more);
            assert(pipeline::classify(all, None) == DecisionSpec::Rejected(
                RejectionSpec::MixedOrInconsistent(Some(row as usize)),
            ));
            if fallback is Some {
                fallback_final(fallback->Some_0, seen, more);
            }
        }
    }
}

proof fn conflict_stays(seen: Seq<u8>, more: Seq<u8>)
    requires
        utf8::utf8_run(seen) is Rejected,
    ensures
        conflict::whole_conflict(seen + more) == conflict::conflict_row(seen, true),
{
    utf8::utf8_valid_up_to_rejected(seen, more);
}

proof fn fallback_final(value: Seq<char>, seen: Seq<u8>, more: Seq<u8>)
    requires
        seen.len() >= 4,
        detect::bom_detected(seen) is None,
        detect::explicit_charset(value) is Some,
        never_decodes(detect::explicit_charset(value)->Some_0, seen),
    ensures
        !(pipeline::classify(seen + more, Some(value)) is Text),
{
    let all = seen + more;
    let charset = detect::explicit_charset(value)->Some_0;
    marks_settle(seen, more);
    marks_settle(all, Seq::empty());
    assert(detect::matching_bom(charset, detect::probe(all)) == 0);
    assert(detect::explicit_detected(value, detect::probe(all)) == Some(fallback_detected(value)));
    assert(all.skip(0) =~= all);
    assert(decoder::whole_text(charset, seen + more) is None);
}

impl CaptureClassifier {
    /// The label asked for.
    pub closed spec fn explicit(&self) -> Option<Seq<char>> {
        label_of(self.explicit)
    }

    /// The fallback label.
    pub closed spec fn fallback(&self) -> Option<Seq<char>> {
        label_of(self.fallback)
    }

    /// The bytes seen so far.
    pub closed spec fn seen(&self) -> Seq<u8> {
        self.seen@
    }

    /// Whether the state fits the bytes seen.
    pub closed spec fn wf(&self) -> bool {
        let seen = self.seen@;
        &&& self.probe@ == detect::probe(seen)
        &&& self.probe_nul == detect::has_nul(self.probe@)
        &&& match self.mode {
            None => seen.len() < 4,
            Some(mode) => {
                &&& seen.len() >= 4
                &&& bad_label(self.explicit(), self.fallback(), seen) is None
                &&& match mode {
                    ClassifierMode::Explicit(mode) => {
                        &&& self.explicit() matches Some(value)
                        &&& detect::explicit_detected(value, seen) matches Some(detected)
                        &&& mode.wf(detected, seen)
                    },
                    ClassifierMode::Bom(mode) => {
                        &&& self.explicit() is None
                        &&& detect::bom_detected(seen) matches Some(detected)
                        &&& mode.wf(detected, seen)
                    },
                    ClassifierMode::Automatic(mode) => {
                        &&& self.explicit() is None
                        &&& detect::bom_detected(seen) is None
                        &&& mode.wf(self.fallback(), seen)
                    },
                }
            },
        }
    }

    /// A classifier that has seen nothing.
    pub fn new(explicit: Option<&str>, fallback: Option<&str>) -> (classifier: Self)
        ensures
            classifier.wf(),
            classifier.explicit() == pipeline::str_view(explicit),
            classifier.fallback() == pipeline::str_view(fallback),
            classifier.seen() == Seq::<u8>::empty(),
    {
        let explicit = match explicit {
            Some(label) => Some(label.to_owned()),
            None => None,
        };
        let fallback = match fallback {
            Some(label) => Some(label.to_owned()),
            None => None,
        };
        CaptureClassifier {
            explicit,
            fallback,
            probe: Vec::new(),
            probe_nul: false,
            mode: None,
            seen: Ghost(Seq::empty()),
        }
    }

    fn extend_probe(&mut self, bytes: &[u8])
        requires
            old(self).probe@ == detect::probe(old(self).seen@),
            old(self).probe_nul == detect::has_nul(old(self).probe@),
        ensures
            final(self).probe@ == detect::probe(old(self).seen@ + bytes@),
            final(self).probe_nul == detect::has_nul(final(self).probe@),
            final(self).explicit == old(self).explicit,
            final(self).fallback == old(self).fallback,
            final(self).mode == old(self).mode,
            final(self).seen == old(self).seen,
    {
        let room: usize = PREFLIGHT_BYTES - self.probe.len();
        let take: usize = if bytes.len() < room {
            bytes.len()
        } else {
            room
        };
        let fresh = slice_subrange(bytes, 0, take);
        if !self.probe_nul && has_binary_nul(fresh) {
            self.probe_nul = true;
        }
        proof {
            nul_in_either(self.probe@, fresh@);
        }
        let ghost held = self.probe@;
        self.probe.extend_from_slice(fresh);
        proof {
            assert(self.probe@ =~= held + fresh@);
            assert(self.probe@ =~= detect::probe(old(self).seen@ + bytes@));
        }
    }

    /// Takes one more chunk in. A reason to stop, once handed out, stands for the verdict about
    /// every content that begins with what was seen.
    pub fn feed(&mut self, bytes: &[u8]) -> (result: Result<
        Option<TerminalProof>,
        EncodingRejection,
    >)
        requires
            old(self).wf(),
            old(self).seen().len() >= 4 || old(self).seen().len() + bytes.len() <= PREFLIGHT_BYTES,
        ensures
            final(self).explicit() == old(self).explicit(),
            final(self).fallback() == old(self).fallback(),
            final(self).seen() == old(self).seen() + bytes@,
            match result {
                Ok(found) => {
                    &&& final(self).wf()
                    &&& final(self).seen().len() >= 4 ==> bad_label(
                        old(self).explicit(),
                        old(self).fallback(),
                        final(self).seen(),
                    ) is None
                    &&& found_view(found) == terminal_spec(
                        old(self).explicit(),
                        old(self).fallback(),
                        final(self).seen(),
                    )
                    &&& found matches Some(reason) ==> forall|more: Seq<u8>| #[trigger]
                        disposition(
                            final(self).seen() + more,
                            old(self).explicit(),
                            old(self).fallback(),
                        ) == reason@.disposition()
                },
                Err(rejection) => {
                    &&& final(self).seen().len() >= 4
                    &&& bad_label(
                        old(self).explicit(),
                        old(self).fallback(),
                        final(self).seen(),
                    ) matches Some(value)
                    &&& rejection@ == RejectionSpec::InvalidLabel(value)
                },
            },
    {
        let ghost before = self.seen@;
        let ghost total = self.seen@ + bytes@;
        self.extend_probe(bytes);
        self.seen = Ghost(total);
        let mut mode: Option<ClassifierMode> = None;
        core::mem::swap(&mut mode, &mut self.mode);
        match mode {
            None => {
                if self.probe.len() < 4 {
                    return Ok(None);
                }
                proof {
                    assert(self.probe@ =~= total);
                }
                match self.initialize() {
                    Ok(mode) => {
                        self.mode = Some(mode);
                    },
                    Err(rejection) => {
                        return Err(rejection);
                    },
                }
            },
            Some(mode) => {
                proof {
                    marks_settle(before, bytes@);
                }
                let mode = match mode {
                    ClassifierMode::Explicit(mode) => {
                        let mut mode = mode;
                        let ghost detected = detect::explicit_detected(
                            self.explicit()->Some_0,
                            before,
                        )->Some_0;
                        mode.feed(bytes, Ghost(before), Ghost(detected));
                        ClassifierMode::Explicit(mode)
                    },
                    ClassifierMode::Bom(mode) => {
                        let mut mode = mode;
                        let ghost detected = detect::bom_detected(before)->Some_0;
                        mode.feed(bytes, Ghost(before), Ghost(detected));
                        ClassifierMode::Bom(mode)
                    },
                    ClassifierMode::Automatic(mode) => {
                        let mut mode = mode;
                        mode.feed(bytes, Ghost(before), Ghost(self.fallback()));
                        ClassifierMode::Automatic(mode)
                    },
                };
                self.mode = Some(mode);
            },
        }
        Ok(self.terminal_proof())
    }

    fn initialize(&self) -> (result: Result<ClassifierMode, EncodingRejection>)
        requires
            self.probe@ == self.seen@,
            4 <= self.seen@.len() <= PREFLIGHT_BYTES,
        ensures
            match result {
                Ok(mode) => {
                    &&& bad_label(self.explicit(), self.fallback(), self.seen@) is None
                    &&& match mode {
                        ClassifierMode::Explicit(mode) => {
                            &&& self.explicit() matches Some(value)
                            &&& detect::explicit_detected(value, self.seen@) matches Some(detected)
                            &&& mode.wf(detected, self.seen@)
                        },
                        ClassifierMode::Bom(mode) => {
                            &&& self.explicit() is None
                            &&& detect::bom_detected(self.seen@) matches Some(detected)
                            &&& mode.wf(detected, self.seen@)
                        },
                        ClassifierMode::Automatic(mode) => {
                            &&& self.explicit() is None
                            &&& detect::bom_detected(self.seen@) is None
                            &&& mode.wf(self.fallback(), self.seen@)
                        },
                    }
                },
                Err(rejection) => {
                    &&& bad_label(self.explicit(), self.fallback(), self.seen@) matches Some(value)
                    &&& rejection@ == RejectionSpec::InvalidLabel(value)
                },
            },
    {
        let seen = self.probe.as_slice();
        if let Some(label) = &self.explicit {
            return match explicit_detected_encoding(label.as_str(), seen) {
                Ok(detected) => {
                    let mode = SelectedMode::start(detected.kind, detected.bom_len, seen);
                    assert(mode.wf(detected@, seen@));
                    Ok(ClassifierMode::Explicit(mode))
                },
                Err(rejection) => Err(rejection),
            };
        }
        if let Some(detected) = bom_detected_encoding(seen) {
            let mode = SelectedMode::start(detected.kind, detected.bom_len, seen);
            assert(mode.wf(detected@, seen@));
            return Ok(ClassifierMode::Bom(mode));
        }
        let mut utf8 = StrictStreamingValidator::new(EncodingKind::Utf8);
        let utf8_malformed = utf8.feed(seen);
        let mut utf8_conflict = Utf8PrefixScanner::new();
        let conflict_hex_offset = utf8_conflict.push(seen);
        proof {
            marks_settle(seen@, Seq::empty());
            assert(Seq::<u8>::empty() + seen@ =~= seen@);
        }
        let fallback = match &self.fallback {
            Some(label) => match explicit_detected_encoding(label.as_str(), seen) {
                Ok(detected) => {
                    let mode = SelectedMode::start(detected.kind, detected.bom_len, seen);
                    assert(mode.wf(fallback_detected(label@), seen@));
                    Some(mode)
                },
                Err(rejection) => {
                    return Err(rejection);
                },
            },
            None => None,
        };
        Ok(
            ClassifierMode::Automatic(
                AutomaticMode {
                    utf8,
                    utf8_malformed,
                    utf8_conflict,
                    conflict_hex_offset,
                    fallback,
                },
            ),
        )
    }

    /// The reason to stop after what was seen. An incomplete sequence at the end is none, since
    /// more could complete it.
    pub fn terminal_proof(&self) -> (found: Option<TerminalProof>)
        requires
            self.wf(),
        ensures
            found_view(found) == terminal_spec(self.explicit(), self.fallback(), self.seen()),
            found matches Some(reason) ==> forall|more: Seq<u8>| #[trigger]
                disposition(self.seen() + more, self.explicit(), self.fallback())
                    == reason@.disposition(),
    {
        let found = match &self.mode {
            None => None,
            Some(ClassifierMode::Explicit(mode)) => {
                if mode.malformed {
                    match &self.explicit {
                        Some(label) => Some(
                            TerminalProof::ExplicitDecoderMalformed { encoding: label.clone() },
                        ),
                        None => None,
                    }
                } else {
                    None
                }
            },
            Some(ClassifierMode::Bom(mode)) => self.bom_terminal(mode),
            Some(ClassifierMode::Automatic(mode)) => self.automatic_terminal(mode),
        };
        proof {
            if found is Some {
                assert forall|more: Seq<u8>| #[trigger]
                    disposition(self.seen() + more, self.explicit(), self.fallback())
                        == found->Some_0@.disposition() by {
                    terminal_proof_is_final(self.explicit(), self.fallback(), self.seen(), more);
                }
            }
        }
        found
    }

    fn is_settled(&self) -> (result: bool)
        requires
            self.probe@ == detect::probe(self.seen@),
        ensures
            result == settled(self.seen@),
    {
        self.probe.len() == PREFLIGHT_BYTES
    }

    fn bom_terminal(&self, mode: &SelectedMode) -> (found: Option<TerminalProof>)
        requires
            self.probe@ == detect::probe(self.seen@),
            self.probe_nul == detect::has_nul(self.probe@),
            self.seen@.len() >= 4,
            self.explicit() is None,
            detect::bom_detected(self.seen@) is Some,
            mode.wf(detect::bom_detected(self.seen@)->Some_0, self.seen@),
        ensures
            found_view(found) == terminal_spec(self.explicit(), self.fallback(), self.seen@),
            found matches Some(reason) ==> backed(
                self.explicit(),
                self.fallback(),
                self.seen@,
                reason@,
            ),
    {
        proof {
            nul_settles(self.seen@, Seq::empty());
        }
        let is_utf8 = match mode.kind {
            EncodingKind::Utf8 => true,
            _ => false,
        };
        if is_utf8 && self.probe_nul {
            return Some(TerminalProof::NulWithinFrozenProbe);
        }
        if mode.malformed && (!is_utf8 || self.is_settled()) {
            return Some(TerminalProof::BomDecoderMalformed { encoding: mode.kind.name() });
        }
        None
    }

    fn automatic_terminal(&self, mode: &AutomaticMode) -> (found: Option<TerminalProof>)
        requires
            self.probe@ == detect::probe(self.seen@),
            self.probe_nul == detect::has_nul(self.probe@),
            self.seen@.len() >= 4,
            self.explicit() is None,
            detect::bom_detected(self.seen@) is None,
            mode.wf(self.fallback(), self.seen@),
        ensures
            found_view(found) == terminal_spec(self.explicit(), self.fallback(), self.seen@),
            found matches Some(reason) ==> backed(
                self.explicit(),
                self.fallback(),
                self.seen@,
                reason@,
            ),
    {
        proof {
            nul_settles(self.seen@, Seq::empty());
            assert(self.seen@.skip(0) =~= self.seen@);
        }
        if self.probe_nul {
            return Some(TerminalProof::NulWithinFrozenProbe);
        }
        if !self.is_settled() {
            return None;
        }
        if mode.utf8_malformed && has_binary_magic(self.probe.as_slice()) {
            return Some(TerminalProof::BinaryMagicAfterUtf8Failure);
        }
        let row = match mode.conflict_hex_offset {
            Some(row) => row,
            None => {
                return None;
            },
        };
        let fallback = match &mode.fallback {
            None => FallbackTerminalState::Absent,
            Some(mode) => if mode.malformed {
                FallbackTerminalState::PermanentlyMalformed
            } else {
                return None;
            },
        };
        Some(TerminalProof::AutomaticRejected { conflict_hex_offset: row, fallback })
    }
}

/// The view of an optional proof.
pub open spec fn found_view(found: Option<TerminalProof>) -> Option<ProofSpec> {
    match found {
        Some(reason) => Some(reason@),
        None => None,
    }
}

} // verus!
