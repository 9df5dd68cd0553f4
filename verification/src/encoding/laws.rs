//! What reading text promises, said of bytes and characters alone.

use crate::encoding::codec;
use crate::encoding::decoder;
use crate::encoding::decoder::Charset;
use crate::encoding::detect;
use crate::encoding::detect::OriginSpec;
use crate::encoding::editable;
use crate::encoding::pipeline;
use crate::encoding::pipeline::DecisionSpec;
use crate::encoding::rejection::RejectionSpec;
use crate::encoding::stats;
use crate::encoding::utf8;
use crate::positions::{one_more_position, positions};
use vstd::prelude::*;
use vstd::string::*;
use vstd::utf8::*;

verus! {

/// The byte order mark of an encoding; a legacy encoding has none.
pub open spec fn mark_of(charset: Charset) -> Seq<u8> {
    match charset {
        Charset::Utf8 => seq![0xEFu8, 0xBBu8, 0xBFu8],
        Charset::Utf16Le => seq![0xFFu8, 0xFEu8],
        Charset::Utf16Be => seq![0xFEu8, 0xFFu8],
        Charset::Utf32Le => seq![0xFFu8, 0xFEu8, 0u8, 0u8],
        Charset::Utf32Be => seq![0u8, 0u8, 0xFEu8, 0xFFu8],
        Charset::Legacy(_) => Seq::empty(),
    }
}

/// Whether a content begins with the mark of an encoding. What begins like UTF-32LE is not UTF-16LE.
pub open spec fn is_marked(bytes: Seq<u8>, charset: Charset) -> bool {
    &&& mark_of(charset).len() > 0
    &&& mark_of(charset).is_prefix_of(bytes)
    &&& charset is Utf16Le ==> !mark_of(Charset::Utf32Le).is_prefix_of(bytes)
}

/// Whether a NUL stands among the first bytes of a content, as many as are looked at.
pub open spec fn nul_in_front(bytes: Seq<u8>) -> bool {
    exists|i: int| 0 <= i < bytes.len() && i < 8192 && #[trigger] bytes[i] == 0
}

proof fn prefix_is_start(bytes: Seq<u8>, magic: Seq<u8>)
    requires
        magic.len() <= 4,
    ensures
        detect::starts_with_spec(detect::probe(bytes), magic) == magic.is_prefix_of(bytes),
        detect::starts_with_spec(bytes, magic) == magic.is_prefix_of(bytes),
{
    if bytes.len() >= magic.len() {
        assert(bytes.take(magic.len() as int) =~= bytes.subrange(0, magic.len() as int));
        assert(detect::probe(bytes).take(magic.len() as int) =~= bytes.take(magic.len() as int));
    }
}

proof fn marks_are_starts(bytes: Seq<u8>)
    ensures
        forall|charset: Charset|
            #![trigger mark_of(charset)]
            detect::starts_with_spec(detect::probe(bytes), mark_of(charset)) == mark_of(
                charset,
            ).is_prefix_of(bytes),
        detect::has_nul(bytes) == nul_in_front(bytes),
{
    assert forall|charset: Charset|
        #![trigger mark_of(charset)]
        detect::starts_with_spec(detect::probe(bytes), mark_of(charset)) == mark_of(
            charset,
        ).is_prefix_of(bytes) by {
        prefix_is_start(bytes, mark_of(charset));
    }
    if nul_in_front(bytes) {
        let i = choose|i: int| 0 <= i < bytes.len() && i < 8192 && #[trigger] bytes[i] == 0;
        assert(bytes[i] == 0);
    }
}

proof fn marks_exclude_each_other(bytes: Seq<u8>, charset: Charset)
    requires
        is_marked(bytes, charset),
    ensures
        detect::bom_detected(detect::probe(bytes)) matches Some(detected) && detected.charset
            == charset && detected.bom_len == mark_of(charset).len(),
{
    marks_are_starts(bytes);
    let big8 = mark_of(Charset::Utf8);
    let le16 = mark_of(Charset::Utf16Le);
    let be16 = mark_of(Charset::Utf16Be);
    let le32 = mark_of(Charset::Utf32Le);
    let be32 = mark_of(Charset::Utf32Be);
    let mark = mark_of(charset);
    assert(mark[0] == bytes[0] && mark[1] == bytes[1]);
    if be32.is_prefix_of(bytes) {
        assert(be32[0] == bytes[0] && be32[1] == bytes[1]);
    }
    if le32.is_prefix_of(bytes) {
        assert(le32[0] == bytes[0] && le32[1] == bytes[1]);
        assert(le16 =~= bytes.subrange(0, 2));
    }
    if big8.is_prefix_of(bytes) {
        assert(big8[0] == bytes[0] && big8[1] == bytes[1]);
    }
    if le16.is_prefix_of(bytes) {
        assert(le16[0] == bytes[0] && le16[1] == bytes[1]);
    }
    if be16.is_prefix_of(bytes) {
        assert(be16[0] == bytes[0] && be16[1] == bytes[1]);
    }
}

/// A content that begins with a byte order mark, and that no label was given for, is text in the
/// encoding of that mark, or it is not text at all; the mark is no part of the text.
pub proof fn a_mark_selects_its_encoding(bytes: Seq<u8>, charset: Charset)
    requires
        is_marked(bytes, charset),
    ensures
        ({
            let rest = bytes.skip(mark_of(charset).len() as int);
            match pipeline::classify(bytes, None) {
                DecisionSpec::Text { detected, .. } => {
                    &&& detected.charset == charset
                    &&& detected.bom_len == mark_of(charset).len()
                    &&& pipeline::decoded_content(bytes, detected) == decoder::whole_text(
                        charset,
                        rest,
                    )
                    &&& decoder::whole_text(charset, rest) is Some
                },
                DecisionSpec::Binary => charset is Utf8 && nul_in_front(bytes),
                DecisionSpec::Rejected(reason) => decoder::whole_text(charset, rest) is None
                    && reason is BomMismatch,
            }
        }),
{
    marks_are_starts(bytes);
    marks_exclude_each_other(bytes, charset);
    pipeline::text_decision_decodes(bytes, None);
}

/// Nothing is left out of a text but a byte order mark of the very encoding it is read in.
pub proof fn only_its_own_mark_is_left_out(bytes: Seq<u8>, label: Option<Seq<char>>)
    ensures
        pipeline::classify(bytes, label) matches DecisionSpec::Text { detected, .. } ==> {
            &&& detected.bom_len == 0 || detected.bom_len == mark_of(detected.charset).len()
                && mark_of(detected.charset).is_prefix_of(bytes)
            &&& label is None ==> (detected.bom_len > 0) == (mark_of(detected.charset).len() > 0
                && mark_of(detected.charset).is_prefix_of(bytes))
            &&& label is Some && mark_of(detected.charset).is_prefix_of(bytes)
                ==> detected.bom_len == mark_of(detected.charset).len()
            &&& pipeline::decoded_content(bytes, detected) == decoder::whole_text(
                detected.charset,
                bytes.skip(detected.bom_len as int),
            )
            &&& pipeline::decoded_content(bytes, detected) is Some
        },
{
    marks_are_starts(bytes);
    pipeline::text_decision_decodes(bytes, label);
    assert(mark_of(Charset::Utf8) =~= seq![0xEFu8, 0xBB, 0xBF]);
    assert(mark_of(Charset::Utf16Le) =~= seq![0xFFu8, 0xFE]);
    assert(mark_of(Charset::Utf16Be) =~= seq![0xFEu8, 0xFF]);
    assert(mark_of(Charset::Utf32Le) =~= seq![0xFFu8, 0xFE, 0x00, 0x00]);
    assert(mark_of(Charset::Utf32Be) =~= seq![0x00u8, 0x00, 0xFE, 0xFF]);
    if label is None {
        if detect::bom_detected(detect::probe(bytes)) is None {
            if let DecisionSpec::Text { detected, .. } = pipeline::classify(bytes, label) {
                assert(mark_of(detected.charset).len() > 0 ==> !mark_of(
                    detected.charset,
                ).is_prefix_of(bytes));
            }
        }
    }
}

proof fn no_mark_detected(bytes: Seq<u8>)
    requires
        forall|charset: Charset| !is_marked(bytes, charset),
    ensures
        detect::bom_detected(detect::probe(bytes)) is None,
        detect::has_nul(bytes) == nul_in_front(bytes),
{
    marks_are_starts(bytes);
    assert(!is_marked(bytes, Charset::Utf8));
    assert(!is_marked(bytes, Charset::Utf16Le));
    assert(!is_marked(bytes, Charset::Utf16Be));
    assert(!is_marked(bytes, Charset::Utf32Le));
    assert(!is_marked(bytes, Charset::Utf32Be));
    assert(mark_of(Charset::Utf8) =~= seq![0xEFu8, 0xBB, 0xBF]);
    assert(mark_of(Charset::Utf16Le) =~= seq![0xFFu8, 0xFE]);
    assert(mark_of(Charset::Utf16Be) =~= seq![0xFEu8, 0xFF]);
    assert(mark_of(Charset::Utf32Le) =~= seq![0xFFu8, 0xFE, 0x00, 0x00]);
    assert(mark_of(Charset::Utf32Be) =~= seq![0x00u8, 0x00, 0xFE, 0xFF]);
}

/// Whether an escape character is followed by an opening bracket or a dollar sign.
pub open spec fn escapes_to_another_set(text: Seq<char>) -> bool {
    exists|i: int|
        0 < i < text.len() && text[i - 1] == '\u{1b}' && (#[trigger] text[i] == '(' || text[i]
            == '$')
}

/// A content without a mark, and that no label was given for: with a NUL in front it is binary.
/// Without one it is UTF-8 text wherever it is valid UTF-8, unless an escape character is followed
/// by `(` or `$`.
pub proof fn unmarked_utf8_is_text(bytes: Seq<u8>)
    requires
        forall|charset: Charset| !is_marked(bytes, charset),
    ensures
        nul_in_front(bytes) ==> pipeline::classify(bytes, None) is Binary,
        !nul_in_front(bytes) && valid_utf8(bytes) ==> if escapes_to_another_set(
            decode_utf8(bytes),
        ) {
            pipeline::classify(bytes, None) is Rejected
        } else {
            &&& pipeline::classify(bytes, None) matches DecisionSpec::Text { detected, .. }
            &&& detected.charset is Utf8
            &&& detected.bom_len == 0
            &&& detected.source_encoding is None
            &&& pipeline::decoded_content(bytes, detected) == Some(decode_utf8(bytes))
        },
{
    no_mark_detected(bytes);
    assert(bytes.skip(0) =~= bytes);
}

/// A label that was given decides alone: the content is text in the encoding of that label, or it
/// is rejected, whatever its bytes look like.
pub proof fn a_label_decides_alone(bytes: Seq<u8>, label: Seq<char>)
    ensures
        match pipeline::classify(bytes, Some(label)) {
            DecisionSpec::Text { detected, .. } => {
                &&& detected.origin == OriginSpec::Explicit(label)
                &&& match detected.charset {
                    Charset::Utf32Le | Charset::Utf32Be => true,
                    charset => codec::label_encoding(detect::trimmed(label)) == Some(
                        match charset {
                            Charset::Utf8 => "UTF-8"@,
                            Charset::Utf16Le => "UTF-16LE"@,
                            Charset::Utf16Be => "UTF-16BE"@,
                            Charset::Legacy(name) => name,
                            _ => ""@,
                        },
                    )
                }
            },
            DecisionSpec::Binary => false,
            DecisionSpec::Rejected(reason) => reason is InvalidLabel || reason
                is ExplicitMalformed,
        },
        label == "utf-32le"@ ==> (pipeline::classify(bytes, Some(label)) matches DecisionSpec::Text {
            detected,
            ..
        } ==> detected.charset is Utf32Le),
        label == "utf-32be"@ ==> (pipeline::classify(bytes, Some(label)) matches DecisionSpec::Text {
            detected,
            ..
        } ==> detected.charset is Utf32Be),
{
    reveal_strlit("utf-32le");
    reveal_strlit("utf-32be");
    assert(crate::text::lowered("utf-32le"@) =~= "utf-32le"@);
    assert(crate::text::lowered("utf-32be"@) =~= "utf-32be"@);
    assert("utf-32le"@[6] != "utf-32be"@[6]);
}

/// Content is read by the outside coder of the encoding that it was accepted in; UTF-8 content is
/// its own text.
pub proof fn content_is_read_in_its_own_encoding(bytes: Seq<u8>)
    ensures
        decoder::whole_text(Charset::Utf8, bytes) == if valid_utf8(bytes) {
            Some(decode_utf8(bytes))
        } else {
            None
        },
        codec::label_encoding("UTF-16LE"@) is Some ==> decoder::whole_text(
            Charset::Utf16Le,
            bytes,
        ) == codec::decoded_whole("UTF-16LE"@, bytes),
        codec::label_encoding("UTF-16BE"@) is Some ==> decoder::whole_text(
            Charset::Utf16Be,
            bytes,
        ) == codec::decoded_whole("UTF-16BE"@, bytes),
        forall|name: Seq<char>|
            codec::label_encoding(name) is Some ==> #[trigger] decoder::whole_text(
                Charset::Legacy(name),
                bytes,
            ) == codec::decoded_whole(name, bytes),
{
}

/// An accepted text has one line more than line feeds, none when it is empty, and it is known
/// whether it ends with a line feed.
pub proof fn lines_of_a_text_are_counted(bytes: Seq<u8>, label: Option<Seq<char>>)
    ensures
        pipeline::classify(bytes, label) matches DecisionSpec::Text {
            detected,
            total_lines,
            has_trailing_newline,
            ..
        } ==> {
            &&& pipeline::decoded_content(bytes, detected) matches Some(text)
            &&& text.len() == 0 ==> total_lines == 0
            &&& 0 < text.len() < usize::MAX ==> total_lines == positions(
                text.len() as int,
                |i: int| text[i] == '\n',
            ).len() + 1
            &&& has_trailing_newline == (text.len() > 0 && text[text.len() - 1] == '\n')
        },
{
    pipeline::text_decision_decodes(bytes, label);
    assert(bytes.skip(0) =~= bytes);
    if let DecisionSpec::Text { detected, .. } = pipeline::classify(bytes, label) {
        let text = pipeline::decoded_content(bytes, detected)->Some_0;
        feeds_are_positions(text);
    }
}

/// Line feeds are counted one by one.
pub proof fn feeds_are_positions(text: Seq<char>)
    ensures
        stats::newline_count(text) == positions(text.len() as int, |i: int| text[i] == '\n').len(),
        stats::newline_count(text) <= text.len(),
    decreases text.len(),
{
    let feeds = |i: int| text[i] == '\n';
    if text.len() == 0 {
        one_more_position(0, feeds);
    } else {
        let shorter = text.drop_last();
        feeds_are_positions(shorter);
        one_more_position(text.len() - 1, feeds);
        assert(positions(text.len() - 1, feeds) =~= positions(
            shorter.len() as int,
            |i: int| shorter[i] == '\n',
        ));
    }
}

/// The number of the two bytes of a code unit.
pub open spec fn unit_at(bytes: Seq<u8>, at: int, little_endian: bool) -> int {
    if little_endian {
        bytes[at] + 256 * bytes[at + 1]
    } else {
        256 * bytes[at] + bytes[at + 1]
    }
}

/// A character written in UTF-16 is one code unit of its own number, or past U+FFFF a high and a
/// low surrogate that make up its number; in UTF-32 it is its number in four bytes.
pub proof fn written_units_are_the_character(character: char)
    ensures
        forall|little: bool|
            {
                let charset = if little {
                    Charset::Utf16Le
                } else {
                    Charset::Utf16Be
                };
                let bytes = #[trigger] editable::utf16_bytes(character as u32, little);
                &&& editable::unicode_bytes(charset, character) == bytes
                &&& (character as u32) < 0x1_0000 ==> bytes.len() == 2 && unit_at(bytes, 0, little)
                    == character as u32
                &&& (character as u32) >= 0x1_0000 ==> {
                    let high = unit_at(bytes, 0, little);
                    let low = unit_at(bytes, 2, little);
                    &&& bytes.len() == 4
                    &&& 0xD800 <= high < 0xDC00
                    &&& 0xDC00 <= low < 0xE000
                    &&& 0x1_0000 + (high - 0xD800) * 0x400 + (low - 0xDC00) == character as u32
                }
            },
        ({
            let bytes = editable::unicode_bytes(Charset::Utf32Le, character);
            &&& bytes.len() == 4
            &&& bytes[0] + 0x100 * bytes[1] + 0x1_0000 * bytes[2] + 0x100_0000 * bytes[3]
                == character as u32
        }),
        ({
            let bytes = editable::unicode_bytes(Charset::Utf32Be, character);
            &&& bytes.len() == 4
            &&& bytes[3] + 0x100 * bytes[2] + 0x1_0000 * bytes[1] + 0x100_0000 * bytes[0]
                == character as u32
        }),
        editable::unicode_bytes(Charset::Utf8, character) == encode_scalar(character as u32),
{
    let value = character as u32;
    assert(value < 0x11_0000);
}

proof fn utf32_text_units(charset: Charset, text: Seq<char>, little: bool)
    requires
        charset == if little {
            Charset::Utf32Le
        } else {
            Charset::Utf32Be
        },
    ensures
        editable::unicode_text_bytes(charset, text).len() == 4 * text.len(),
        forall|i: int|
            0 <= i < text.len() ==> #[trigger] decoder::utf32_unit(
                editable::unicode_text_bytes(charset, text),
                little,
                i,
            ) == text[i] as u32,
    decreases text.len(),
{
    if text.len() > 0 {
        let rest = text.drop_last();
        utf32_text_units(charset, rest, little);
        written_units_are_the_character(text.last());
        let shorter = editable::unicode_text_bytes(charset, rest);
        let last = editable::unicode_bytes(charset, text.last());
        let bytes = editable::unicode_text_bytes(charset, text);
        assert(bytes == shorter + last);
        assert forall|i: int| 0 <= i < text.len() implies #[trigger] decoder::utf32_unit(
            bytes,
            little,
            i,
        ) == text[i] as u32 by {
            if i < rest.len() {
                assert(decoder::utf32_unit(shorter, little, i) == rest[i] as u32);
                assert(decoder::utf32_unit(bytes, little, i) == decoder::utf32_unit(
                    shorter,
                    little,
                    i,
                ));
            } else {
                assert(bytes[4 * i] == last[0] && bytes[4 * i + 1] == last[1] && bytes[4 * i + 2]
                    == last[2] && bytes[4 * i + 3] == last[3]);
            }
        }
    }
}

proof fn number_of_a_character(character: char)
    ensures
        is_scalar(character as u32),
        (character as u32) as char == character,
{
}

proof fn utf32_text_back(charset: Charset, text: Seq<char>, little: bool)
    requires
        charset == if little {
            Charset::Utf32Le
        } else {
            Charset::Utf32Be
        },
    ensures
        decoder::whole_text(charset, editable::unicode_text_bytes(charset, text)) == Some(text),
{
    utf32_text_units(charset, text, little);
    let bytes = editable::unicode_text_bytes(charset, text);
    assert(bytes.len() / 4 == text.len());
    assert forall|i: int| 0 <= i < text.len() implies is_scalar(
        #[trigger] decoder::utf32_unit(bytes, little, i),
    ) && decoder::utf32_unit(bytes, little, i) as char == text[i] by {
        number_of_a_character(text[i]);
    }
    assert(decoder::utf32_text(bytes, little)->Some_0 =~= text);
}

/// What is written in UTF-32 is read back as it was.
pub proof fn utf32_is_read_back(text: Seq<char>)
    ensures
        decoder::whole_text(
            Charset::Utf32Le,
            editable::unicode_text_bytes(Charset::Utf32Le, text),
        ) == Some(text),
        decoder::whole_text(
            Charset::Utf32Be,
            editable::unicode_text_bytes(Charset::Utf32Be, text),
        ) == Some(text),
{
    utf32_text_back(Charset::Utf32Le, text, true);
    utf32_text_back(Charset::Utf32Be, text, false);
}

/// Whether a character may stand in text whose encoding was guessed: no control character but tab,
/// line feed and carriage return, and none that stands for nothing.
pub open spec fn may_be_guessed(character: char) -> bool {
    let value = character as u32;
    &&& value >= 0x20 || value == 9 || value == 10 || value == 13
    &&& !(0x80 <= value < 0xA0)
    &&& !(0xFDD0 <= value < 0xFDF0)
    &&& value % 0x1_0000 < 0xFFFE
}

/// Content without a mark that is not UTF-8 is taken for text only in the encoding that its bytes
/// suggest, only with enough bytes that tell, and only where the text written in that encoding again
/// gives the same bytes.
pub proof fn guessed_text_is_written_back(bytes: Seq<u8>)
    requires
        forall|charset: Charset| !is_marked(bytes, charset),
        !valid_utf8(bytes),
    ensures
        pipeline::classify(bytes, None) matches DecisionSpec::Text { detected, .. } ==> {
            let name = codec::guessed_encoding(bytes);
            &&& detected.bom_len == 0
            &&& detected.source_encoding == Some(name)
            &&& detected.charset.name() == name
            &&& detected.origin is Automatic
            &&& pipeline::decoded_content(bytes, detected) matches Some(text)
            &&& codec::encoded_whole(name, text) == Some(bytes)
            &&& forall|i: int| 0 <= i < text.len() ==> may_be_guessed(#[trigger] text[i])
            &&& !codec::single_byte(name)
            &&& positions(bytes.len() as int, |i: int| bytes[i] >= 0x80).len() >= 32
        },
{
    no_mark_detected(bytes);
    assert(bytes.skip(0) =~= bytes);
    tell_tale_bytes(bytes);
    pipeline::text_decision_decodes(bytes, None);
    if let DecisionSpec::Text { detected, .. } = pipeline::classify(bytes, None) {
        let text = pipeline::decoded_content(bytes, detected)->Some_0;
        assert forall|i: int| 0 <= i < text.len() implies may_be_guessed(#[trigger] text[i]) by {
            assert(!crate::encoding::legacy::is_disallowed(text[i]));
        }
    }
}

proof fn tell_tale_bytes(bytes: Seq<u8>)
    ensures
        crate::encoding::segments::non_ascii_count(bytes) == positions(
            bytes.len() as int,
            |i: int| bytes[i] >= 0x80,
        ).len(),
    decreases bytes.len(),
{
    let tells = |i: int| bytes[i] >= 0x80;
    if bytes.len() == 0 {
        one_more_position(0, tells);
    } else {
        let rest = bytes.drop_last();
        tell_tale_bytes(rest);
        one_more_position(bytes.len() - 1, tells);
        assert(positions(bytes.len() - 1, tells) =~= positions(
            rest.len() as int,
            |i: int| rest[i] >= 0x80,
        ));
    }
}

/// Content that is not UTF-8 and begins like an archive, a program or a database is binary.
pub proof fn known_formats_are_binary(bytes: Seq<u8>, magic: Seq<u8>)
    requires
        forall|charset: Charset| !is_marked(bytes, charset),
        !valid_utf8(bytes),
        magic.is_prefix_of(bytes),
        magic == seq![0x50u8, 0x4B, 0x03, 0x04] || magic == seq![0x1Fu8, 0x8B] || magic == seq![
            0x37u8,
            0x7A,
            0xBC,
            0xAF,
            0x27,
            0x1C,
        ] || magic == seq![0x28u8, 0xB5, 0x2F, 0xFD] || magic == seq![0x7Fu8, 0x45, 0x4C, 0x46]
            || magic == seq![0x4Du8, 0x5A],
    ensures
        pipeline::classify(bytes, None) is Binary,
{
    no_mark_detected(bytes);
    let front = detect::probe(bytes);
    assert(front.take(magic.len() as int) =~= magic) by {
        assert(bytes.subrange(0, magic.len() as int) =~= magic);
        assert forall|i: int| 0 <= i < magic.len() implies front[i] == magic[i] by {
            assert(bytes.subrange(0, magic.len() as int)[i] == bytes[i]);
        }
    }
    assert(detect::starts_with_spec(front, magic));
}

/// Content without a mark that begins with at least 32 bytes of UTF-8, eight of them beyond ASCII, and
/// then breaks it is rejected as mixed, with the row of sixteen bytes, counted from 1, in which it
/// breaks.
pub proof fn broken_utf8_is_mixed(bytes: Seq<u8>, known: int)
    requires
        forall|charset: Charset| !is_marked(bytes, charset),
        !nul_in_front(bytes),
        !detect::has_magic(detect::probe(bytes)),
        0 <= known < bytes.len() <= usize::MAX,
        valid_utf8(bytes.take(known)),
        forall|k: int| known < k <= bytes.len() ==> !valid_utf8(#[trigger] bytes.take(k)),
        known >= 32,
        positions(known, |i: int| bytes[i] >= 0x80).len() >= 8,
    ensures
        pipeline::classify(bytes, None) == DecisionSpec::Rejected(
            RejectionSpec::MixedOrInconsistent(Some((known / 16 + 1) as usize)),
        ),
{
    no_mark_detected(bytes);
    assert(bytes.take(bytes.len() as int) =~= bytes);
    assert(!valid_utf8(bytes));
    utf8::utf8_boundary_is_validity(bytes);
    utf8::utf8_valid_up_to_is_longest(bytes);
    let found = utf8::utf8_valid_up_to(bytes);
    if found < known {
        assert(!valid_utf8(bytes.take(known)));
    }
    if found > known {
        assert(!valid_utf8(bytes.take(found)));
    }
    let front = bytes.take(known);
    tell_tale_bytes(front);
    assert(positions(known, |i: int| bytes[i] >= 0x80) =~= positions(
        front.len() as int,
        |i: int| front[i] >= 0x80,
    ));
}

} // verus!
