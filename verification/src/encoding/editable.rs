//! What a validated encoding offers to its users: notes, search text, and byte-preserving edit
//! boundaries.

use crate::encoding::decoder::{Charset, EncodingKind};
use crate::encoding::detect::EncodingOrigin;
use crate::encoding::legacy;
use crate::encoding::legacy::encode_whole;
use crate::encoding::pipeline;
use crate::encoding::pipeline::{decode_bytes, ValidatedFileEncoding};
use crate::encoding::rejection::{EncodingRejection, RejectionSpec};
use crate::encoding::stream::Utf8Reader;
use crate::encoding::utf8;
use crate::text::{chars_of, same_bytes, same_text, string_of};
use vstd::prelude::*;
use vstd::slice::{slice_subrange, slice_to_vec};
use vstd::string::*;
use vstd::utf8::*;

verus! {

/// Whether each character of this legacy encoding is encoded on its own.
pub open spec fn stateless_legacy(name: Seq<char>) -> bool {
    name == "GBK"@ || name == "Shift_JIS"@ || name == "Big5"@ || name == "EUC-KR"@ || name
        == "windows-1252"@
}

/// The UTF-32 bytes of a character.
pub open spec fn utf32_bytes(value: u32, little_endian: bool) -> Seq<u8> {
    let b0 = (value % 0x100) as u8;
    let b1 = (value / 0x100 % 0x100) as u8;
    let b2 = (value / 0x1_0000 % 0x100) as u8;
    let b3 = (value / 0x100_0000) as u8;
    if little_endian {
        seq![b0, b1, b2, b3]
    } else {
        seq![b3, b2, b1, b0]
    }
}

/// The bytes of a UTF-16 code unit.
pub open spec fn unit_bytes(unit: u32, little_endian: bool) -> Seq<u8> {
    if little_endian {
        seq![(unit % 0x100) as u8, (unit / 0x100) as u8]
    } else {
        seq![(unit / 0x100) as u8, (unit % 0x100) as u8]
    }
}

/// The UTF-16 bytes of a character: one unit, or a surrogate pair past U+FFFF.
pub open spec fn utf16_bytes(value: u32, little_endian: bool) -> Seq<u8> {
    if value < 0x1_0000 {
        unit_bytes(value, little_endian)
    } else {
        let offset = (value - 0x1_0000) as u32;
        unit_bytes((0xD800 + offset / 0x400) as u32, little_endian) + unit_bytes(
            (0xDC00 + offset % 0x400) as u32,
            little_endian,
        )
    }
}

/// The bytes of one character in a Unicode encoding.
pub open spec fn unicode_bytes(charset: Charset, character: char) -> Seq<u8> {
    match charset {
        Charset::Utf32Le => utf32_bytes(character as u32, true),
        Charset::Utf32Be => utf32_bytes(character as u32, false),
        Charset::Utf16Le => utf16_bytes(character as u32, true),
        Charset::Utf16Be => utf16_bytes(character as u32, false),
        _ => encode_scalar(character as u32),
    }
}

/// The bytes of a text in a Unicode encoding, without a byte order mark.
pub open spec fn unicode_text_bytes(charset: Charset, text: Seq<char>) -> Seq<u8>
    decreases text.len(),
{
    if text.len() == 0 {
        Seq::empty()
    } else {
        unicode_text_bytes(charset, text.drop_last()) + unicode_bytes(charset, text.last())
    }
}

/// The bytes that inserted text gets; `None` for text that the encoding cannot hold and for
/// encodings in which a fragment has no bytes of its own.
pub open spec fn fragment_bytes(charset: Charset, text: Seq<char>) -> Option<Seq<u8>> {
    match charset {
        Charset::Legacy(name) => if stateless_legacy(name) {
            legacy::legacy_bytes(name, text)
        } else {
            None
        },
        _ => Some(unicode_text_bytes(charset, text)),
    }
}

/// The bytes of a text when every character is encoded on its own.
pub open spec fn char_fragments(charset: Charset, text: Seq<char>) -> Option<Seq<u8>>
    decreases text.len(),
{
    if text.len() == 0 {
        Some(Seq::empty())
    } else {
        match (
            char_fragments(charset, text.drop_last()),
            fragment_bytes(charset, seq![text.last()]),
        ) {
            (Some(before), Some(last)) => Some(before + last),
            _ => None,
        }
    }
}

/// For every UTF-8 offset of a text the raw offset of the character boundary there, `None`
/// inside a character. `raw` holds the raw offset of each character boundary.
pub open spec fn offset_map(text: Seq<char>, raw: Seq<int>) -> Seq<Option<int>>
    decreases text.len(),
{
    if text.len() == 0 {
        seq![Some(raw[0])]
    } else {
        offset_map(text.drop_last(), raw.drop_last()) + Seq::new(
            (encode_scalar(text.last() as u32).len() - 1) as nat,
            |i: int| None::<int>,
        ) + seq![Some(raw.last())]
    }
}

/// The raw offset of each character boundary of a decoded text.
pub open spec fn raw_offsets(charset: Charset, text: Seq<char>, start: int) -> Seq<int>
    decreases text.len(),
{
    if text.len() == 0 {
        seq![start]
    } else {
        raw_offsets(charset, text.drop_last(), start).push(
            start + char_fragments(charset, text)->Some_0.len(),
        )
    }
}

/// The mathematical value of a vector of optional offsets.
pub open spec fn offsets_view(offsets: Seq<Option<usize>>) -> Seq<Option<int>> {
    offsets.map(
        |i: int, offset: Option<usize>|
            match offset {
                Some(offset) => Some(offset as int),
                None => None,
            },
    )
}

/// Decoded text with the raw offset of every character boundary.
#[derive(Clone, Debug)]
pub struct EditableDecodedText {
    /// The text with its original line ends.
    pub text: String,
    /// For every UTF-8 offset of `text` the raw offset, `None` inside a character.
    pub raw_boundaries: Vec<Option<usize>>,
}

fn push_unit(bytes: &mut Vec<u8>, unit: u32, little_endian: bool)
    requires
        unit <= 0xFFFF,
    ensures
        final(bytes)@ == old(bytes)@ + unit_bytes(unit, little_endian),
{
    let low: u8 = (unit % 0x100) as u8;
    let high: u8 = (unit / 0x100) as u8;
    let ghost before = bytes@;
    if little_endian {
        bytes.push(low);
        bytes.push(high);
    } else {
        bytes.push(high);
        bytes.push(low);
    }
    assert(bytes@ =~= before + unit_bytes(unit, little_endian));
}

fn push_utf16(bytes: &mut Vec<u8>, character: char, little_endian: bool)
    ensures
        final(bytes)@ == old(bytes)@ + utf16_bytes(character as u32, little_endian),
{
    let value: u32 = character as u32;
    let ghost before = bytes@;
    if value < 0x1_0000 {
        push_unit(bytes, value, little_endian);
    } else {
        let offset: u32 = value - 0x1_0000;
        push_unit(bytes, 0xD800 + offset / 0x400, little_endian);
        push_unit(bytes, 0xDC00 + offset % 0x400, little_endian);
        assert(bytes@ =~= before + utf16_bytes(value, little_endian));
    }
}

fn push_utf32(bytes: &mut Vec<u8>, character: char, little_endian: bool)
    ensures
        final(bytes)@ == old(bytes)@ + utf32_bytes(character as u32, little_endian),
{
    let value: u32 = character as u32;
    let ghost before = bytes@;
    let b0: u8 = (value % 0x100) as u8;
    let b1: u8 = (value / 0x100 % 0x100) as u8;
    let b2: u8 = (value / 0x1_0000 % 0x100) as u8;
    let b3: u8 = (value / 0x100_0000) as u8;
    if little_endian {
        bytes.push(b0);
        bytes.push(b1);
        bytes.push(b2);
        bytes.push(b3);
    } else {
        bytes.push(b3);
        bytes.push(b2);
        bytes.push(b1);
        bytes.push(b0);
    }
    assert(bytes@ =~= before + utf32_bytes(value, little_endian));
}

/// In UTF-8 the characters of a text are encoded one after the other.
pub proof fn utf8_text_bytes(text: Seq<char>)
    ensures
        unicode_text_bytes(Charset::Utf8, text) == encode_utf8(text),
    decreases text.len(),
{
    if text.len() > 0 {
        let last = seq![text.last()];
        utf8_text_bytes(text.drop_last());
        utf8::encode_utf8_concat(text.drop_last(), last);
        assert(text.drop_last() + last =~= text);
        single_char_bytes(text.last());
    }
}

proof fn single_char_bytes(character: char)
    ensures
        encode_utf8(seq![character]) == encode_scalar(character as u32),
{
    let one = seq![character];
    assert(one.drop_first() =~= Seq::<char>::empty());
    assert(encode_utf8(one.drop_first()) =~= Seq::<u8>::empty());
    assert(encode_utf8(one) =~= encode_scalar(character as u32));
}

fn utf8_len(character: char) -> (len: usize)
    ensures
        len == encode_scalar(character as u32).len(),
        1 <= len <= 4,
{
    let value: u32 = character as u32;
    if value <= 0x7F {
        1
    } else if value <= 0x7FF {
        2
    } else if value <= 0xFFFF {
        3
    } else {
        4
    }
}

/// Encodes inserted text without a byte order mark.
pub fn encode_fragment(kind: EncodingKind, text: &str) -> (result: Option<Vec<u8>>)
    ensures
        match result {
            Some(bytes) => fragment_bytes(kind@, text@) == Some(bytes@),
            None => fragment_bytes(kind@, text@) is None,
        },
{
    match kind {
        EncodingKind::Legacy(name) => if is_editable_stateless_encoding(name) {
            encode_whole(name, text)
        } else {
            None
        },
        EncodingKind::Utf8 => {
            proof {
                utf8_text_bytes(text@);
            }
            Some(slice_to_vec(text.as_bytes()))
        },
        _ => {
            let chars = chars_of(text);
            let mut bytes: Vec<u8> = Vec::new();
            let mut index: usize = 0;
            while index < chars.len()
                invariant
                    index <= chars.len(),
                    chars@ == text@,
                    !(kind@ is Legacy),
                    !(kind@ is Utf8),
                    bytes@ == unicode_text_bytes(kind@, chars@.take(index as int)),
                decreases chars.len() - index,
            {
                let character = chars[index];
                proof {
                    assert(chars@.take(index + 1).drop_last() =~= chars@.take(index as int));
                    assert(chars@.take(index + 1).last() == character);
                }
                match kind {
                    EncodingKind::Utf32Le => push_utf32(&mut bytes, character, true),
                    EncodingKind::Utf32Be => push_utf32(&mut bytes, character, false),
                    EncodingKind::Utf16Le => push_utf16(&mut bytes, character, true),
                    _ => push_utf16(&mut bytes, character, false),
                }
                index += 1;
            }
            assert(chars@.take(chars@.len() as int) =~= chars@);
            Some(bytes)
        },
    }
}

fn is_editable_stateless_encoding(name: &str) -> (result: bool)
    ensures
        result == stateless_legacy(name@),
{
    same_text(name, "GBK") || same_text(name, "Shift_JIS") || same_text(name, "Big5")
        || same_text(name, "EUC-KR") || same_text(name, "windows-1252")
}

/// The note that discloses a transcoding.
pub open spec fn transcoding_note_spec(validated: ValidatedFileEncoding) -> Option<Seq<char>> {
    match validated.detected.source_encoding {
        None => None,
        Some(encoding) => Some(
            match validated.detected.origin {
                EncodingOrigin::Explicit(_) => if validated.explicit_utf8_warning {
                    "(Note: decoded from "@ + encoding@
                        + " as requested; output is UTF-8. Warning: the raw bytes are also valid UTF-8 — if this looks garbled, retry with encoding=\"utf-8\" or omit encoding.)"@
                } else {
                    "(Note: decoded from "@ + encoding@ + " as requested; output is UTF-8.)"@
                },
                _ => "(Note: decoded from "@ + encoding@ + "; output is UTF-8.)"@,
            },
        ),
    }
}

/// The rejection of a file that no longer decodes as it was validated.
pub open spec fn malformed_rejection_spec(validated: ValidatedFileEncoding) -> RejectionSpec {
    match validated.detected.origin {
        EncodingOrigin::Explicit(encoding) => RejectionSpec::ExplicitMalformed(encoding@),
        EncodingOrigin::Bom(encoding) => RejectionSpec::BomMismatch(encoding@),
        EncodingOrigin::Automatic => RejectionSpec::Undecodable,
    }
}

/// What an edit snapshot of `raw` is, or why there is none.
pub open spec fn editable_error(validated: ValidatedFileEncoding, raw: Seq<u8>) -> Option<
    Seq<char>,
> {
    let detected = validated.detected@;
    let label = validated.label();
    if detected.bom_len > raw.len() || pipeline::decoded_content(raw, detected) is None {
        Some("the file changed after encoding validation"@)
    } else {
        match char_fragments(detected.charset, pipeline::decoded_content(raw, detected)->Some_0) {
            None => Some(
                "stateful source encoding "@ + label
                    + " cannot provide byte-preserving edit boundaries"@,
            ),
            Some(bytes) => if bytes != raw.skip(detected.bom_len as int) {
                Some(
                    "source encoding "@ + label + " did not reproduce the original bytes exactly"@,
                )
            } else {
                None
            },
        }
    }
}

/// The raw offset of a character boundary cuts an editable content exactly there: the raw bytes
/// before it, past the byte order mark, are the encoding of the text before it.
pub proof fn raw_offsets_cut_between_characters(
    validated: ValidatedFileEncoding,
    raw: Seq<u8>,
    text: Seq<char>,
    count: int,
)
    requires
        editable_error(validated, raw) is None,
        pipeline::decoded_content(raw, validated.detected@) == Some(text),
        0 <= count <= text.len(),
    ensures
        ({
            let start = validated.detected@.bom_len as int;
            let offsets = raw_offsets(validated.detected@.charset, text, start);
            &&& offsets.len() == text.len() + 1
            &&& start <= offsets[count] <= raw.len()
            &&& char_fragments(validated.detected@.charset, text.take(count)) == Some(
                raw.subrange(start, offsets[count]),
            )
        }),
{
    let start = validated.detected@.bom_len as int;
    let charset = validated.detected@.charset;
    fragments_are_prefixes(charset, text, start, count);
    let all = raw.skip(start);
    let offset = raw_offsets(charset, text, start)[count];
    assert(all.take(offset - start) =~= raw.subrange(start, offset));
}

proof fn fragments_are_prefixes(charset: Charset, text: Seq<char>, start: int, count: int)
    requires
        char_fragments(charset, text) is Some,
        0 <= count <= text.len(),
    ensures
        ({
            let offsets = raw_offsets(charset, text, start);
            let all = char_fragments(charset, text)->Some_0;
            &&& offsets.len() == text.len() + 1
            &&& start <= offsets[count] <= start + all.len()
            &&& char_fragments(charset, text.take(count)) == Some(all.take(offsets[count] - start))
        }),
    decreases text.len(),
{
    let all = char_fragments(charset, text)->Some_0;
    if text.len() == 0 {
        assert(text.take(0) =~= text);
        assert(all.take(0) =~= all);
    } else if count == text.len() {
        fragments_are_prefixes(charset, text.drop_last(), start, 0);
        assert(text.take(count) =~= text);
        assert(all.take(all.len() as int) =~= all);
    } else {
        let shorter = text.drop_last();
        fragments_are_prefixes(charset, shorter, start, count);
        let before = char_fragments(charset, shorter)->Some_0;
        let offset = raw_offsets(charset, shorter, start)[count];
        assert(raw_offsets(charset, text, start)[count] == offset);
        assert(text.take(count) =~= shorter.take(count));
        assert(all.take(offset - start) =~= before.take(offset - start));
    }
}

impl ValidatedFileEncoding {
    /// The canonical name for diagnostics.
    pub open spec fn label(&self) -> Seq<char> {
        match self.detected.source_encoding {
            Some(name) => name@,
            None => "UTF-8"@,
        }
    }

    /// The canonical name for diagnostics.
    pub fn encoding_label(&self) -> (label: &'static str)
        ensures
            label@ == self.label(),
    {
        match self.detected.source_encoding {
            Some(name) => name,
            None => "UTF-8",
        }
    }

    /// Where UTF-8 content begins; `None` for content that has to be transcoded.
    pub fn utf8_snapshot_start(&self) -> (start: Option<usize>)
        ensures
            start == if self.detected.kind@ is Utf8 {
                Some(self.detected.bom_len)
            } else {
                None
            },
    {
        match self.detected.kind {
            EncodingKind::Utf8 => Some(self.detected.bom_len),
            _ => None,
        }
    }

    /// A reader of the UTF-8 text of a content that is read in chunks.
    pub fn open_source_reader(&self) -> (reader: Utf8Reader)
        ensures
            reader.wf(),
            reader.charset() == self.detected@.charset,
            reader.fed() == Seq::<u8>::empty(),
            !reader.finished(),
            reader.given() == Seq::<u8>::empty(),
            reader.ready() == Seq::<u8>::empty(),
    {
        Utf8Reader::open_source(&self.detected)
    }

    /// The UTF-8 bytes to search: UTF-8 content as it is, anything else decoded. `None` when the
    /// bytes no longer decode as they were validated.
    pub fn decode_for_search(&self, raw: &[u8]) -> (result: Option<Vec<u8>>)
        ensures
            self.detected.bom_len > raw.len() ==> result is None,
            self.detected.bom_len <= raw.len() && self.detected.kind@ is Utf8 ==> (result matches Some(
                bytes,
            ) && bytes@ == raw@.skip(self.detected.bom_len as int)),
            self.detected.bom_len <= raw.len() && !(self.detected.kind@ is Utf8) ==> match (
                pipeline::decoded_content(raw@, self.detected@),
                result,
            ) {
                (Some(text), Some(bytes)) => bytes@ == encode_utf8(text),
                (None, None) => true,
                _ => false,
            },
    {
        if self.detected.bom_len > raw.len() {
            return None;
        }
        if let EncodingKind::Utf8 = self.detected.kind {
            let content = slice_subrange(raw, self.detected.bom_len, raw.len());
            assert(content@ =~= raw@.skip(self.detected.bom_len as int));
            return Some(slice_to_vec(content));
        }
        match decode_bytes(raw, &self.detected) {
            Some(text) => Some(slice_to_vec(text.as_str().as_bytes())),
            None => None,
        }
    }

    /// The rejection of a file that no longer decodes as it was validated.
    pub fn malformed_rejection(&self) -> (rejection: EncodingRejection)
        ensures
            rejection@ == malformed_rejection_spec(*self),
    {
        match &self.detected.origin {
            EncodingOrigin::Explicit(encoding) => EncodingRejection::ExplicitMalformed {
                encoding: encoding.clone(),
            },
            EncodingOrigin::Bom(encoding) => EncodingRejection::BomMismatch { encoding },
            EncodingOrigin::Automatic => EncodingRejection::Undecodable,
        }
    }

    /// The note that discloses a transcoding; original UTF-8 needs none.
    pub fn transcoding_note(&self) -> (note: Option<String>)
        ensures
            match note {
                Some(note) => transcoding_note_spec(*self) == Some(note@),
                None => transcoding_note_spec(*self) is None,
            },
    {
        let encoding = match self.detected.source_encoding {
            Some(encoding) => encoding,
            None => {
                return None;
            },
        };
        let mut note = "(Note: decoded from ".to_owned();
        note.append(encoding);
        match &self.detected.origin {
            EncodingOrigin::Explicit(_) => {
                if self.explicit_utf8_warning {
                    note.append(
                        " as requested; output is UTF-8. Warning: the raw bytes are also valid UTF-8 — if this looks garbled, retry with encoding=\"utf-8\" or omit encoding.)",
                    );
                } else {
                    note.append(" as requested; output is UTF-8.)");
                }
            },
            _ => {
                note.append("; output is UTF-8.)");
            },
        }
        Some(note)
    }

    /// Decodes a snapshot and proves a raw offset for every character boundary: encoding the
    /// characters one by one gives back the content byte for byte.
    pub fn decode_editable_snapshot(&self, raw: &[u8]) -> (result: Result<
        EditableDecodedText,
        String,
    >)
        ensures
            match result {
                Ok(editable) => {
                    let detected = self.detected@;
                    &&& editable_error(*self, raw@) is None
                    &&& pipeline::decoded_content(raw@, detected) == Some(editable.text@)
                    &&& offsets_view(editable.raw_boundaries@) == offset_map(
                        editable.text@,
                        raw_offsets(
                            detected.charset,
                            editable.text@,
                            detected.bom_len as int,
                        ),
                    )
                },
                Err(reason) => editable_error(*self, raw@) == Some(reason@),
            },
    {
        let kind = self.detected.kind;
        let bom_len = self.detected.bom_len;
        let text = match decode_bytes(raw, &self.detected) {
            Some(text) => text,
            None => {
                return Err("the file changed after encoding validation".to_owned());
            },
        };
        let chars = chars_of(text.as_str());
        let mut boundaries: Vec<Option<usize>> = Vec::new();
        boundaries.push(Some(bom_len));
        let mut encoded: Vec<u8> = Vec::new();
        let mut index: usize = 0;
        proof {
            let none = chars@.take(0);
            assert(none =~= Seq::<char>::empty());
            assert(offsets_view(boundaries@) =~= offset_map(
                none,
                raw_offsets(kind@, none, bom_len as int),
            ));
        }
        while index < chars.len()
            invariant
                index <= chars.len(),
                chars@ == text@,
                kind == self.detected.kind,
                bom_len == self.detected.bom_len,
                bom_len <= raw.len(),
                pipeline::decoded_content(raw@, self.detected@) == Some(text@),
                char_fragments(kind@, chars@.take(index as int)) == Some(encoded@),
                encoded@.len() <= raw@.len() - bom_len,
                offsets_view(boundaries@) == offset_map(
                    chars@.take(index as int),
                    raw_offsets(kind@, chars@.take(index as int), bom_len as int),
                ),
            decreases chars.len() - index,
        {
            let character = chars[index];
            let ghost here = chars@.take(index as int);
            let ghost longer = chars@.take(index + 1);
            let ghost old_boundaries = boundaries@;
            let single = string_of(slice_subrange(chars.as_slice(), index, index + 1));
            proof {
                assert(longer.drop_last() =~= here);
                assert(longer.last() == character);
                assert(single@ =~= seq![character]);
            }
            let mut fragment = match encode_fragment(kind, single.as_str()) {
                Some(fragment) => fragment,
                None => {
                    proof {
                        fragments_fail(kind@, chars@, index + 1);
                    }
                    let mut reason = "stateful source encoding ".to_owned();
                    reason.append(self.encoding_label());
                    reason.append(" cannot provide byte-preserving edit boundaries");
                    return Err(reason);
                },
            };
            encoded.append(&mut fragment);
            if encoded.len() > raw.len() - bom_len {
                return self.unreproduced(raw, text, encoded, index + 1);
            }
            let len = utf8_len(character);
            let mut inner: usize = 1;
            while inner < len
                invariant
                    1 <= inner <= len <= 4,
                    boundaries@ == old_boundaries + Seq::new(
                        (inner - 1) as nat,
                        |i: int| None::<usize>,
                    ),
                decreases len - inner,
            {
                boundaries.push(None);
                assert(boundaries@ =~= old_boundaries + Seq::new(
                    inner as nat,
                    |i: int| None::<usize>,
                ));
                inner += 1;
            }
            boundaries.push(Some(bom_len + encoded.len()));
            proof {
                let offsets = raw_offsets(kind@, longer, bom_len as int);
                assert(offsets.drop_last() =~= raw_offsets(kind@, here, bom_len as int));
                assert(offsets_view(boundaries@) =~= offset_map(longer, offsets));
            }
            index += 1;
        }
        proof {
            assert(chars@.take(chars@.len() as int) =~= chars@);
        }
        let content = slice_subrange(raw, bom_len, raw.len());
        assert(content@ =~= raw@.skip(bom_len as int));
        if !same_bytes(encoded.as_slice(), content) {
            return Err(self.unreproduced_reason());
        }
        Ok(EditableDecodedText { text, raw_boundaries: boundaries })
    }

    fn unreproduced_reason(&self) -> (reason: String)
        ensures
            reason@ == "source encoding "@ + self.label()
                + " did not reproduce the original bytes exactly"@,
    {
        let mut reason = "source encoding ".to_owned();
        reason.append(self.encoding_label());
        reason.append(" did not reproduce the original bytes exactly");
        reason
    }

    /// The characters encode to more bytes than the content has: only the reason is left to
    /// find, which is whether one of the remaining characters cannot be encoded at all.
    fn unreproduced(&self, raw: &[u8], text: String, encoded: Vec<u8>, from: usize) -> (result:
        Result<EditableDecodedText, String>)
        requires
            self.detected.bom_len <= raw.len(),
            pipeline::decoded_content(raw@, self.detected@) == Some(text@),
            from <= text@.len(),
            char_fragments(self.detected.kind@, text@.take(from as int)) == Some(encoded@),
            encoded@.len() > raw@.len() - self.detected.bom_len,
        ensures
            result matches Err(reason) && editable_error(*self, raw@) == Some(reason@),
    {
        let kind = self.detected.kind;
        let chars = chars_of(text.as_str());
        let mut index: usize = from;
        let ghost mut bytes = encoded@;
        while index < chars.len()
            invariant
                from <= index <= chars.len(),
                chars@ == text@,
                kind == self.detected.kind,
                self.detected.bom_len <= raw.len(),
                pipeline::decoded_content(raw@, self.detected@) == Some(text@),
                char_fragments(kind@, chars@.take(index as int)) == Some(bytes),
                bytes.len() > raw@.len() - self.detected.bom_len,
            decreases chars.len() - index,
        {
            let single = string_of(slice_subrange(chars.as_slice(), index, index + 1));
            proof {
                assert(chars@.take(index + 1).drop_last() =~= chars@.take(index as int));
                assert(chars@.take(index + 1).last() == chars@[index as int]);
                assert(single@ =~= seq![chars@[index as int]]);
            }
            match encode_fragment(kind, single.as_str()) {
                Some(fragment) => {
                    proof {
                        bytes = bytes + fragment@;
                    }
                },
                None => {
                    proof {
                        fragments_fail(kind@, chars@, index + 1);
                    }
                    let mut reason = "stateful source encoding ".to_owned();
                    reason.append(self.encoding_label());
                    reason.append(" cannot provide byte-preserving edit boundaries");
                    return Err(reason);
                },
            }
            index += 1;
        }
        proof {
            assert(chars@.take(chars@.len() as int) =~= chars@);
        }
        Err(self.unreproduced_reason())
    }
}

proof fn fragments_fail(charset: Charset, text: Seq<char>, count: int)
    requires
        0 <= count <= text.len(),
        char_fragments(charset, text.take(count)) is None,
    ensures
        char_fragments(charset, text) is None,
    decreases text.len(),
{
    if count < text.len() {
        assert(text.drop_last().take(count) =~= text.take(count));
        fragments_fail(charset, text.drop_last(), count);
    } else {
        assert(text.take(count) =~= text);
    }
}

} // verus!
