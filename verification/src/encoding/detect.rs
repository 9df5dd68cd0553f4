//! What the first bytes of a file and an explicit label say about its encoding.

use crate::encoding::codec;
use crate::encoding::codec::encoding_for_label;
use crate::encoding::decoder::{Charset, EncodingKind};
use crate::encoding::rejection::{EncodingRejection, RejectionSpec};
use crate::text;
use crate::text::{chars_of, lower_chars, same_text, string_of};
use vstd::prelude::*;
use vstd::slice::slice_subrange;

verus! {

/// How many leading bytes the binary probe examines.
pub const BINARY_PROBE_BYTES: usize = 8192;

/// Why an encoding was selected.
#[derive(Clone, Debug)]
pub enum EncodingOrigin {
    /// The caller asked for this label.
    Explicit(String),
    /// A byte order mark of this encoding stands at the start.
    Bom(&'static str),
    /// The bytes alone decided.
    Automatic,
}

/// The mathematical value of an [`EncodingOrigin`].
pub enum OriginSpec {
    Explicit(Seq<char>),
    Bom(Seq<char>),
    Automatic,
}

impl View for EncodingOrigin {
    type V = OriginSpec;

    open spec fn view(&self) -> OriginSpec {
        match self {
            EncodingOrigin::Explicit(label) => OriginSpec::Explicit(label@),
            EncodingOrigin::Bom(name) => OriginSpec::Bom(name@),
            EncodingOrigin::Automatic => OriginSpec::Automatic,
        }
    }
}

/// A selected encoding, the byte order mark to skip, and the name to disclose.
#[derive(Clone, Debug)]
pub struct DetectedEncoding {
    pub kind: EncodingKind,
    pub bom_len: usize,
    /// Canonical name of the source encoding; UTF-8 has none to disclose.
    pub source_encoding: Option<&'static str>,
    pub origin: EncodingOrigin,
}

/// The mathematical value of a [`DetectedEncoding`].
pub struct DetectedSpec {
    pub charset: Charset,
    pub bom_len: nat,
    pub source_encoding: Option<Seq<char>>,
    pub origin: OriginSpec,
}

/// The characters of an optional string.
pub open spec fn view_of(value: Option<&'static str>) -> Option<Seq<char>> {
    match value {
        Some(name) => Some(name@),
        None => None,
    }
}

impl View for DetectedEncoding {
    type V = DetectedSpec;

    open spec fn view(&self) -> DetectedSpec {
        DetectedSpec {
            charset: self.kind@,
            bom_len: self.bom_len as nat,
            source_encoding: view_of(self.source_encoding),
            origin: self.origin@,
        }
    }
}

/// Whether `bytes` begin with `magic`.
pub open spec fn starts_with_spec(bytes: Seq<u8>, magic: Seq<u8>) -> bool {
    bytes.len() >= magic.len() && bytes.take(magic.len() as int) == magic
}

/// Whether `bytes` begin with `magic`.
pub fn starts_with(bytes: &[u8], magic: &[u8]) -> (result: bool)
    ensures
        result == starts_with_spec(bytes@, magic@),
{
    if bytes.len() < magic.len() {
        return false;
    }
    let mut index: usize = 0;
    while index < magic.len()
        invariant
            index <= magic.len() <= bytes.len(),
            forall|i: int| 0 <= i < index ==> bytes@[i] == magic@[i],
        decreases magic.len() - index,
    {
        if bytes[index] != magic[index] {
            assert(bytes@.take(magic@.len() as int)[index as int] != magic@[index as int]);
            return false;
        }
        index += 1;
    }
    assert(bytes@.take(magic@.len() as int) =~= magic@);
    true
}

/// The part of a content that the probes examine.
pub open spec fn probe(bytes: Seq<u8>) -> Seq<u8> {
    if bytes.len() > BINARY_PROBE_BYTES {
        bytes.take(BINARY_PROBE_BYTES as int)
    } else {
        bytes
    }
}

/// Whether a NUL stands among the first 8 KiB.
pub open spec fn has_nul(bytes: Seq<u8>) -> bool {
    exists|i: int| 0 <= i < bytes.len() && i < BINARY_PROBE_BYTES && #[trigger] bytes[i] == 0
}

/// Whether a NUL marks the content as binary; only the first 8 KiB count.
pub fn has_binary_nul(bytes: &[u8]) -> (result: bool)
    ensures
        result == has_nul(bytes@),
{
    let mut index: usize = 0;
    while index < bytes.len() && index < BINARY_PROBE_BYTES
        invariant
            index <= bytes.len(),
            index <= BINARY_PROBE_BYTES,
            forall|i: int| 0 <= i < index ==> #[trigger] bytes@[i] != 0,
        decreases bytes.len() - index,
    {
        if bytes[index] == 0 {
            return true;
        }
        index += 1;
    }
    false
}

/// Whether the content begins like an archive, an executable, a database or another known
/// binary format.
pub open spec fn has_magic(bytes: Seq<u8>) -> bool {
    ||| starts_with_spec(bytes, seq![0x50u8, 0x4B, 0x03, 0x04])
    ||| starts_with_spec(bytes, seq![0x1Fu8, 0x8B])
    ||| starts_with_spec(bytes, seq![0x37u8, 0x7A, 0xBC, 0xAF, 0x27, 0x1C])
    ||| starts_with_spec(bytes, seq![0x28u8, 0xB5, 0x2F, 0xFD])
    ||| starts_with_spec(bytes, seq![0x7Fu8, 0x45, 0x4C, 0x46])
    ||| starts_with_spec(bytes, seq![0x4Du8, 0x5A])
    ||| starts_with_spec(bytes, seq![0xFEu8, 0xED, 0xFA, 0xCE])
    ||| starts_with_spec(bytes, seq![0xFEu8, 0xED, 0xFA, 0xCF])
    ||| starts_with_spec(bytes, seq![0xCEu8, 0xFA, 0xED, 0xFE])
    ||| starts_with_spec(bytes, seq![0xCFu8, 0xFA, 0xED, 0xFE])
    ||| starts_with_spec(
        bytes,
        seq![
            0x53u8,
            0x51,
            0x4C,
            0x69,
            0x74,
            0x65,
            0x20,
            0x66,
            0x6F,
            0x72,
            0x6D,
            0x61,
            0x74,
            0x20,
            0x33,
            0x00,
        ],
    )
    ||| starts_with_spec(bytes, seq![0x00u8, 0x61, 0x73, 0x6D])
    ||| bytes.len() >= 262 && bytes.subrange(257, 262) == seq![0x75u8, 0x73, 0x74, 0x61, 0x72]
}

/// Whether the content begins like a known binary format.
pub fn has_binary_magic(bytes: &[u8]) -> (result: bool)
    ensures
        result == has_magic(bytes@),
{
    starts_with(bytes, vec![0x50u8, 0x4B, 0x03, 0x04].as_slice())
        || starts_with(bytes, vec![0x1Fu8, 0x8B].as_slice())
        || starts_with(bytes, vec![0x37u8, 0x7A, 0xBC, 0xAF, 0x27, 0x1C].as_slice())
        || starts_with(bytes, vec![0x28u8, 0xB5, 0x2F, 0xFD].as_slice())
        || starts_with(bytes, vec![0x7Fu8, 0x45, 0x4C, 0x46].as_slice())
        || starts_with(bytes, vec![0x4Du8, 0x5A].as_slice())
        || starts_with(bytes, vec![0xFEu8, 0xED, 0xFA, 0xCE].as_slice())
        || starts_with(bytes, vec![0xFEu8, 0xED, 0xFA, 0xCF].as_slice())
        || starts_with(bytes, vec![0xCEu8, 0xFA, 0xED, 0xFE].as_slice())
        || starts_with(bytes, vec![0xCFu8, 0xFA, 0xED, 0xFE].as_slice())
        || starts_with(
        bytes,
        vec![
            0x53u8, 0x51, 0x4C, 0x69, 0x74, 0x65, 0x20, 0x66, 0x6F, 0x72, 0x6D, 0x61, 0x74, 0x20,
            0x33, 0x00,
        ].as_slice(),
    ) || starts_with(bytes, vec![0x00u8, 0x61, 0x73, 0x6D].as_slice()) || has_tar_magic(bytes)
}

fn has_tar_magic(bytes: &[u8]) -> (result: bool)
    ensures
        result == (bytes@.len() >= 262 && bytes@.subrange(257, 262) == seq![
            0x75u8,
            0x73,
            0x74,
            0x61,
            0x72,
        ]),
{
    if bytes.len() < 262 {
        return false;
    }
    let field = slice_subrange(bytes, 257, 262);
    assert(field@.take(5) =~= field@);
    starts_with(field, vec![0x75u8, 0x73, 0x74, 0x61, 0x72].as_slice())
}

/// The detection that a byte order mark stands for.
pub open spec fn bom_spec(charset: Charset, bom_len: nat, disclosed: bool) -> DetectedSpec {
    DetectedSpec {
        charset,
        bom_len,
        source_encoding: if disclosed {
            Some(charset.name())
        } else {
            None
        },
        origin: OriginSpec::Bom(charset.name()),
    }
}

/// The encoding that a byte order mark announces. The UTF-32LE mark starts like that of
/// UTF-16LE and goes first.
pub open spec fn bom_detected(bytes: Seq<u8>) -> Option<DetectedSpec> {
    if starts_with_spec(bytes, seq![0x00u8, 0x00, 0xFE, 0xFF]) {
        Some(bom_spec(Charset::Utf32Be, 4, true))
    } else if starts_with_spec(bytes, seq![0xFFu8, 0xFE, 0x00, 0x00]) {
        Some(bom_spec(Charset::Utf32Le, 4, true))
    } else if starts_with_spec(bytes, seq![0xEFu8, 0xBB, 0xBF]) {
        Some(bom_spec(Charset::Utf8, 3, false))
    } else if starts_with_spec(bytes, seq![0xFFu8, 0xFE]) {
        Some(bom_spec(Charset::Utf16Le, 2, true))
    } else if starts_with_spec(bytes, seq![0xFEu8, 0xFF]) {
        Some(bom_spec(Charset::Utf16Be, 2, true))
    } else {
        None
    }
}

fn bom_of(kind: EncodingKind, bom_len: usize, disclosed: bool) -> (detected: DetectedEncoding)
    ensures
        detected@ == bom_spec(kind@, bom_len as nat, disclosed),
{
    DetectedEncoding {
        kind,
        bom_len,
        source_encoding: if disclosed {
            Some(kind.name())
        } else {
            None
        },
        origin: EncodingOrigin::Bom(kind.name()),
    }
}

/// The encoding that a byte order mark announces.
pub fn bom_detected_encoding(bytes: &[u8]) -> (result: Option<DetectedEncoding>)
    ensures
        match result {
            Some(detected) => bom_detected(bytes@) == Some(detected@) && detected.bom_len
                <= bytes.len(),
            None => bom_detected(bytes@) is None,
        },
{
    if starts_with(bytes, vec![0x00u8, 0x00, 0xFE, 0xFF].as_slice()) {
        return Some(bom_of(EncodingKind::Utf32Be, 4, true));
    }
    if starts_with(bytes, vec![0xFFu8, 0xFE, 0x00, 0x00].as_slice()) {
        return Some(bom_of(EncodingKind::Utf32Le, 4, true));
    }
    if starts_with(bytes, vec![0xEFu8, 0xBB, 0xBF].as_slice()) {
        return Some(bom_of(EncodingKind::Utf8, 3, false));
    }
    if starts_with(bytes, vec![0xFFu8, 0xFE].as_slice()) {
        return Some(bom_of(EncodingKind::Utf16Le, 2, true));
    }
    if starts_with(bytes, vec![0xFEu8, 0xFF].as_slice()) {
        return Some(bom_of(EncodingKind::Utf16Be, 2, true));
    }
    None
}

/// A byte order mark is no longer than the bytes that hold it, and it is the same for every
/// content that begins with these four bytes.
pub proof fn bom_needs_four_bytes(bytes: Seq<u8>, more: Seq<u8>)
    ensures
        bom_detected(bytes) matches Some(detected) ==> detected.bom_len <= bytes.len(),
        bytes.len() >= 4 ==> bom_detected(bytes + more) == bom_detected(bytes),
{
    assert forall|magic: Seq<u8>| magic.len() <= 4 && bytes.len() >= 4 implies starts_with_spec(
        bytes + more,
        magic,
    ) == #[trigger] starts_with_spec(bytes, magic) by {
        assert((bytes + more).take(magic.len() as int) =~= bytes.take(magic.len() as int));
    }
}

/// The encoding with this canonical name.
pub open spec fn charset_of(name: Seq<char>) -> Charset {
    if name == "UTF-8"@ {
        Charset::Utf8
    } else if name == "UTF-16LE"@ {
        Charset::Utf16Le
    } else if name == "UTF-16BE"@ {
        Charset::Utf16Be
    } else {
        Charset::Legacy(name)
    }
}

/// The encoding with this canonical name.
pub fn kind_of(name: &'static str) -> (kind: EncodingKind)
    ensures
        kind@ == charset_of(name@),
{
    if same_text(name, "UTF-8") {
        EncodingKind::Utf8
    } else if same_text(name, "UTF-16LE") {
        EncodingKind::Utf16Le
    } else if same_text(name, "UTF-16BE") {
        EncodingKind::Utf16Be
    } else {
        EncodingKind::Legacy(name)
    }
}

/// `text` without ASCII white space at its ends.
pub open spec fn trimmed(text: Seq<char>) -> Seq<char>
    decreases text.len(),
{
    if text.len() == 0 {
        text
    } else if text::is_ascii_space(text.last()) {
        trimmed(text.drop_last())
    } else if text::is_ascii_space(text[0]) {
        trimmed(text.drop_first())
    } else {
        text
    }
}

fn is_space(character: char) -> (result: bool)
    ensures
        result == text::is_ascii_space(character),
{
    character == ' ' || character == '\t' || character == '\n' || character == '\u{c}' || character
        == '\r'
}

/// Takes ASCII white space off both ends.
pub fn trim_ascii(text: &str) -> (result: Vec<char>)
    ensures
        result@ == trimmed(text@),
{
    let chars = chars_of(text);
    let mut start: usize = 0;
    let mut end: usize = chars.len();
    assert(chars@.subrange(0, end as int) =~= chars@);
    while start < end
        invariant_except_break
            start <= end <= chars.len(),
            chars@ == text@,
            trimmed(chars@.subrange(start as int, end as int)) == trimmed(text@),
        ensures
            start <= end <= chars.len(),
            chars@.subrange(start as int, end as int) == trimmed(text@),
        decreases end - start,
    {
        let ghost here = chars@.subrange(start as int, end as int);
        if is_space(chars[end - 1]) {
            assert(here.drop_last() =~= chars@.subrange(start as int, end - 1));
            end = end - 1;
        } else if is_space(chars[start]) {
            assert(here.drop_first() =~= chars@.subrange(start + 1, end as int));
            start = start + 1;
        } else {
            break;
        }
    }
    let kept = slice_subrange(chars.as_slice(), start, end);
    vstd::slice::slice_to_vec(kept)
}

/// The encoding that an explicit label selects.
pub open spec fn explicit_charset(value: Seq<char>) -> Option<Charset> {
    let label = trimmed(value);
    if text::lowered(label) == "utf-32le"@ {
        Some(Charset::Utf32Le)
    } else if text::lowered(label) == "utf-32be"@ {
        Some(Charset::Utf32Be)
    } else {
        match codec::label_encoding(label) {
            Some(name) => Some(charset_of(name)),
            None => None,
        }
    }
}

/// The length of the byte order mark of this very encoding at the start of `bytes`.
pub open spec fn matching_bom(charset: Charset, bytes: Seq<u8>) -> nat {
    match charset {
        Charset::Utf32Le => if starts_with_spec(bytes, seq![0xFFu8, 0xFE, 0x00, 0x00]) {
            4
        } else {
            0
        },
        Charset::Utf32Be => if starts_with_spec(bytes, seq![0x00u8, 0x00, 0xFE, 0xFF]) {
            4
        } else {
            0
        },
        Charset::Utf8 => if starts_with_spec(bytes, seq![0xEFu8, 0xBB, 0xBF]) {
            3
        } else {
            0
        },
        Charset::Utf16Le => if starts_with_spec(bytes, seq![0xFFu8, 0xFE]) {
            2
        } else {
            0
        },
        Charset::Utf16Be => if starts_with_spec(bytes, seq![0xFEu8, 0xFF]) {
            2
        } else {
            0
        },
        Charset::Legacy(_) => 0,
    }
}

fn matching_bom_len(kind: EncodingKind, bytes: &[u8]) -> (len: usize)
    ensures
        len == matching_bom(kind@, bytes@),
        len <= bytes.len(),
{
    match kind {
        EncodingKind::Utf32Le => if starts_with(
            bytes,
            vec![0xFFu8, 0xFE, 0x00, 0x00].as_slice(),
        ) {
            4
        } else {
            0
        },
        EncodingKind::Utf32Be => if starts_with(
            bytes,
            vec![0x00u8, 0x00, 0xFE, 0xFF].as_slice(),
        ) {
            4
        } else {
            0
        },
        EncodingKind::Utf8 => if starts_with(bytes, vec![0xEFu8, 0xBB, 0xBF].as_slice()) {
            3
        } else {
            0
        },
        EncodingKind::Utf16Le => if starts_with(bytes, vec![0xFFu8, 0xFE].as_slice()) {
            2
        } else {
            0
        },
        EncodingKind::Utf16Be => if starts_with(bytes, vec![0xFEu8, 0xFF].as_slice()) {
            2
        } else {
            0
        },
        EncodingKind::Legacy(_) => 0,
    }
}

/// The name to disclose for content that was not UTF-8.
pub open spec fn disclosed(charset: Charset) -> Option<Seq<char>> {
    if charset is Utf8 {
        None
    } else {
        Some(charset.name())
    }
}

/// What an explicit label selects for content that begins with `bytes`.
pub open spec fn explicit_detected(value: Seq<char>, bytes: Seq<u8>) -> Option<DetectedSpec> {
    match explicit_charset(value) {
        Some(charset) => Some(
            DetectedSpec {
                charset,
                bom_len: matching_bom(charset, bytes),
                source_encoding: disclosed(charset),
                origin: OriginSpec::Explicit(value),
            },
        ),
        None => None,
    }
}

/// What an explicit label selects, or the rejection of a label that selects nothing.
pub fn explicit_detected_encoding(value: &str, prefix: &[u8]) -> (result: Result<
    DetectedEncoding,
    EncodingRejection,
>)
    ensures
        match result {
            Ok(detected) => explicit_detected(value@, prefix@) == Some(detected@)
                && detected.bom_len <= prefix.len(),
            Err(rejection) => explicit_detected(value@, prefix@) is None && rejection@
                == RejectionSpec::InvalidLabel(value@),
        },
{
    let label = trim_ascii(value);
    let lower = string_of(lower_chars(label.as_slice()).as_slice());
    let label_text = string_of(label.as_slice());
    let kind = if same_text(lower.as_str(), "utf-32le") {
        EncodingKind::Utf32Le
    } else if same_text(lower.as_str(), "utf-32be") {
        EncodingKind::Utf32Be
    } else {
        match encoding_for_label(label_text.as_str()) {
            Some(name) => kind_of(name),
            None => {
                return Err(EncodingRejection::InvalidLabel { value: value.to_owned() });
            },
        }
    };
    let source_encoding = match kind {
        EncodingKind::Utf8 => None,
        _ => Some(kind.name()),
    };
    Ok(
        DetectedEncoding {
            kind,
            bom_len: matching_bom_len(kind, prefix),
            source_encoding,
            origin: EncodingOrigin::Explicit(value.to_owned()),
        },
    )
}

/// Checks a label and hands out the canonical name of what it selects.
pub fn canonical_encoding_label(value: &str) -> (result: Result<&'static str, EncodingRejection>)
    ensures
        match result {
            Ok(name) => explicit_charset(value@) matches Some(charset) && name@ == charset.name(),
            Err(rejection) => explicit_charset(value@) is None && rejection@
                == RejectionSpec::InvalidLabel(value@),
        },
{
    let empty: Vec<u8> = Vec::new();
    match explicit_detected_encoding(value, empty.as_slice()) {
        Ok(detected) => Ok(detected.kind.name()),
        Err(rejection) => Err(rejection),
    }
}

/// Whether an encoding is none of the Unicode ones.
pub fn is_legacy_encoding(kind: EncodingKind) -> (legacy: bool)
    ensures
        legacy == (kind@ is Legacy),
{
    match kind {
        EncodingKind::Legacy(_) => true,
        _ => false,
    }
}

} // verus!
