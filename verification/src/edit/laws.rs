//! What editing promises, said of texts and bytes alone.

use crate::edit::document;
use crate::edit::document::{EolStyle, TextDocument};
use crate::edit::pattern;
use crate::edit::pattern::MatchSpec;
use crate::edit::replacement;
use crate::encoding::decoder::Charset;
use crate::encoding::detect::DetectedSpec;
use crate::encoding::editable;
use crate::encoding::laws as encoding_laws;
use crate::encoding::pipeline;
use crate::encoding::utf8;
use crate::positions::{no_position, one_more_position, positions};
use crate::text;
use crate::text::laws as text_laws;
use vstd::prelude::*;
use vstd::string::*;
use vstd::utf8::*;

verus! {

/// Whether the character at `i` is the line feed of a CR LF pair.
pub open spec fn closes_pair(text: Seq<char>, i: int) -> bool {
    0 < i < text.len() && text[i] == '\n' && text[i - 1] == '\r'
}

/// How many CR LF pairs a text has.
pub open spec fn pairs(text: Seq<char>) -> nat {
    positions(text.len() as int, |i: int| closes_pair(text, i)).len()
}

/// How many line feeds of a text stand outside CR LF pairs.
pub open spec fn lone_feeds(text: Seq<char>) -> nat {
    positions(text.len() as int, |i: int| text[i] == '\n' && !closes_pair(text, i)).len()
}

proof fn counts_are_positions(text: Seq<char>, n: int)
    requires
        0 <= n <= text.len(),
    ensures
        document::crlf_count(text, n) == positions(n, |i: int| closes_pair(text, i)).len(),
        document::lf_count(text, n) == positions(
            n,
            |i: int| text[i] == '\n' && !closes_pair(text, i),
        ).len(),
    decreases n,
{
    let paired = |i: int| closes_pair(text, i);
    let lone = |i: int| text[i] == '\n' && !closes_pair(text, i);
    if n == 0 {
        one_more_position(0, paired);
        one_more_position(0, lone);
    } else {
        one_more_position(n - 1, paired);
        one_more_position(n - 1, lone);
        if n >= 2 && closes_pair(text, n - 1) {
            counts_are_positions(text, n - 2);
            one_more_position(n - 2, paired);
            one_more_position(n - 2, lone);
        } else {
            counts_are_positions(text, n - 1);
        }
    }
}

/// A document writes CR LF exactly when CR LF pairs outnumber the other line feeds of its text;
/// so a text without a single pair never gets one.
pub proof fn line_ends_follow_the_majority(
    document: TextDocument,
    display: Seq<char>,
    raw: Seq<u8>,
    label: Option<Seq<char>>,
    text: Seq<char>,
)
    requires
        document.opened_from(display, raw, label),
        pipeline::decoded_content(raw, document.validated().detected@) == Some(text),
    ensures
        document.eol() == EolStyle::Crlf <==> pairs(text) > lone_feeds(text),
        (forall|i: int| !closes_pair(text, i)) ==> document.eol() == EolStyle::Lf,
{
    counts_are_positions(text, text.len() as int);
    no_position(text.len() as int, |i: int| closes_pair(text, i));
}

/// Whether `adapted` is `text` with a carriage return put before each line feed.
pub open spec fn returns_added(text: Seq<char>, adapted: Seq<char>) -> bool {
    exists|at: Seq<int>|
        {
            &&& at.len() == text.len() + 1
            &&& at[0] == 0
            &&& at[text.len() as int] == adapted.len()
            &&& forall|i: int|
                0 <= i < text.len() ==> adapted.subrange(#[trigger] at[i], at[i + 1]) == if text[i]
                    == '\n' {
                    seq!['\r', '\n']
                } else {
                    seq![text[i]]
                } && 0 <= at[i] <= at[i + 1] <= adapted.len()
        }
}

proof fn lf_changes_nothing(text: Seq<char>)
    ensures
        document::with_eol(text, EolStyle::Lf) == text,
    decreases text.len(),
{
    if text.len() > 0 {
        lf_changes_nothing(text.drop_last());
        reveal_strlit("\n");
        assert("\n"@ =~= seq!['\n']);
        assert(document::with_eol(text, EolStyle::Lf) =~= text);
    } else {
        assert(document::with_eol(text, EolStyle::Lf) =~= text);
    }
}

proof fn crlf_adds_returns(text: Seq<char>)
    ensures
        returns_added(text, document::with_eol(text, EolStyle::Crlf)),
    decreases text.len(),
{
    let adapted = document::with_eol(text, EolStyle::Crlf);
    if text.len() == 0 {
        let at = seq![0int];
        assert(at.len() == text.len() + 1);
        assert(at[text.len() as int] == adapted.len());
    } else {
        let rest = text.drop_last();
        crlf_adds_returns(rest);
        let shorter = document::with_eol(rest, EolStyle::Crlf);
        let before = choose|at: Seq<int>|
            {
                &&& at.len() == rest.len() + 1
                &&& at[0] == 0
                &&& at[rest.len() as int] == shorter.len()
                &&& forall|i: int|
                    0 <= i < rest.len() ==> shorter.subrange(#[trigger] at[i], at[i + 1]) == if rest[i]
                        == '\n' {
                        seq!['\r', '\n']
                    } else {
                        seq![rest[i]]
                    } && 0 <= at[i] <= at[i + 1] <= shorter.len()
            };
        reveal_strlit("\r\n");
        assert("\r\n"@ =~= seq!['\r', '\n']);
        let at = before.push(adapted.len() as int);
        assert forall|i: int| 0 <= i < text.len() implies adapted.subrange(
            #[trigger] at[i],
            at[i + 1],
        ) == if text[i] == '\n' {
            seq!['\r', '\n']
        } else {
            seq![text[i]]
        } && 0 <= at[i] <= at[i + 1] <= adapted.len() by {
            if i < rest.len() {
                assert(at[i] == before[i] && at[i + 1] == before[i + 1]);
                assert(text[i] == rest[i]);
                assert(adapted.subrange(at[i], at[i + 1]) =~= shorter.subrange(
                    before[i],
                    before[i + 1],
                ));
            } else {
                assert(at[i] == shorter.len());
                assert(adapted.subrange(at[i], at[i + 1]) =~= if text[i] == '\n' {
                    seq!['\r', '\n']
                } else {
                    seq![text[i]]
                });
            }
        }
        assert(at.len() == text.len() + 1 && at[0] == 0 && at[text.len() as int]
            == adapted.len());
    }
}

/// Text put into a document is encoded as it stands where the document has no more CR LF pairs
/// than other line feeds, and else with a carriage return before each line feed. In a UTF-8
/// document the bytes are the UTF-8 of that.
pub proof fn inserted_text_has_the_line_ends_of_the_document(
    document: TextDocument,
    display: Seq<char>,
    raw: Seq<u8>,
    label: Option<Seq<char>>,
    text: Seq<char>,
    inserted: Seq<char>,
)
    requires
        document.opened_from(display, raw, label),
        pipeline::decoded_content(raw, document.validated().detected@) == Some(text),
    ensures
        ({
            let charset = document.validated().detected@.charset;
            &&& pairs(text) <= lone_feeds(text) ==> {
                &&& document.target_bytes(inserted) == editable::fragment_bytes(charset, inserted)
                &&& charset is Utf8 ==> document.target_bytes(inserted) == Some(
                    encode_utf8(inserted),
                )
            }
            &&& pairs(text) > lone_feeds(text) ==> exists|adapted: Seq<char>|
                #[trigger] returns_added(inserted, adapted) && document.target_bytes(inserted)
                    == editable::fragment_bytes(charset, adapted) && (charset is Utf8
                    ==> document.target_bytes(inserted) == Some(encode_utf8(adapted)))
        }),
{
    line_ends_follow_the_majority(document, display, raw, label, text);
    lf_changes_nothing(inserted);
    crlf_adds_returns(inserted);
    let adapted = document::with_eol(inserted, document.eol());
    utf8_text_bytes(adapted);
    utf8_text_bytes(inserted);
}

proof fn utf8_text_bytes(text: Seq<char>)
    ensures
        editable::unicode_text_bytes(Charset::Utf8, text) == encode_utf8(text),
    decreases text.len(),
{
    if text.len() == 0 {
        assert(editable::unicode_text_bytes(Charset::Utf8, text) =~= encode_utf8(text));
    } else {
        let last = seq![text.last()];
        utf8_text_bytes(text.drop_last());
        utf8::encode_utf8_concat(text.drop_last(), last);
        assert(text.drop_last() + last =~= text);
        assert(last.drop_first() =~= Seq::<char>::empty());
        assert(encode_utf8(last.drop_first()) =~= Seq::<u8>::empty());
        assert(encode_utf8(last) =~= encode_scalar(text.last() as u32));
    }
}

/// A text is read with each CR LF pair as one line feed: cut anywhere but inside a pair, the parts
/// read one after the other are the whole, a pair reads as a line feed, and any other character as
/// itself.
pub proof fn pairs_read_as_line_feeds(text: Seq<char>, cut: int)
    requires
        0 <= cut <= text.len(),
        !closes_pair(text, cut),
    ensures
        document::logical_text(text) == document::logical_text(text.take(cut))
            + document::logical_text(text.skip(cut)),
        text == seq!['\r', '\n'] ==> document::logical_text(text) == seq!['\n'],
        text.len() == 1 ==> document::logical_text(text) == text,
        (forall|i: int| !closes_pair(text, i)) ==> document::logical_text(text) == text,
{
    logical_parts(text, cut, text.len() as int);
    if text == seq!['\r', '\n'] {
        assert(document::logical_prefix(text, 0) =~= Seq::<char>::empty());
        assert(document::logical_text(text) =~= seq!['\n']);
    }
    if text.len() == 1 {
        assert(document::logical_prefix(text, 0) =~= Seq::<char>::empty());
        assert(document::logical_text(text) =~= text);
    }
    if forall|i: int| !closes_pair(text, i) {
        logical_without_pairs(text, text.len() as int);
        assert(text.take(text.len() as int) =~= text);
    }
}

proof fn logical_without_pairs(text: Seq<char>, n: int)
    requires
        0 <= n <= text.len(),
        forall|i: int| !closes_pair(text, i),
    ensures
        document::logical_prefix(text, n) == text.take(n),
    decreases n,
{
    if n > 0 {
        logical_without_pairs(text, n - 1);
        assert(!closes_pair(text, n - 1));
        assert(text.take(n) =~= text.take(n - 1).push(text[n - 1]));
    } else {
        assert(document::logical_prefix(text, n) =~= text.take(n));
    }
}

proof fn logical_parts(text: Seq<char>, cut: int, n: int)
    requires
        0 <= cut <= n <= text.len(),
        !closes_pair(text, cut),
    ensures
        document::logical_prefix(text, n) == document::logical_text(text.take(cut))
            + document::logical_prefix(text.skip(cut), n - cut),
    decreases n,
{
    let head = text.take(cut);
    let tail = text.skip(cut);
    if n == cut {
        logical_same(text, head, cut);
        assert(document::logical_prefix(tail, 0) =~= Seq::<char>::empty());
        assert(document::logical_text(head) + Seq::<char>::empty() =~= document::logical_text(
            head,
        ));
    } else {
        let before = if document::ends_in_crlf(text, n) {
            n - 2
        } else {
            n - 1
        };
        if document::ends_in_crlf(text, n) {
            assert(closes_pair(text, n - 1));
        }
        assert(tail[n - cut - 1] == text[n - 1]);
        if n - 2 >= cut {
            assert(tail[n - cut - 2] == text[n - 2]);
        }
        logical_parts(text, cut, before);
        assert(document::logical_prefix(text, n) =~= document::logical_text(head)
            + document::logical_prefix(tail, n - cut));
    }
}

proof fn logical_same(text: Seq<char>, head: Seq<char>, n: int)
    requires
        0 <= n <= head.len() <= text.len(),
        forall|i: int| 0 <= i < head.len() ==> head[i] == text[i],
    ensures
        document::logical_prefix(text, n) == document::logical_prefix(head, n),
    decreases n,
{
    if n > 0 {
        logical_same(text, head, n - 1);
        if n > 1 {
            logical_same(text, head, n - 2);
        }
    }
}

proof fn boundary_ends_a_prefix(text: Seq<char>, offset: int) -> (count: int)
    requires
        is_char_boundary(encode_utf8(text), offset),
        0 <= offset <= encode_utf8(text).len(),
    ensures
        0 <= count <= text.len(),
        encode_utf8(text.take(count)) == encode_utf8(text).take(offset),
{
    let bytes = encode_utf8(text);
    encode_utf8_valid_utf8(text);
    encode_utf8_decode_utf8(text);
    valid_utf8_split(bytes, offset);
    decode_utf8_split(bytes, offset);
    let first = decode_utf8(bytes.subrange(0, offset));
    decode_utf8_encode_utf8(bytes.subrange(0, offset));
    assert(text.take(first.len() as int) =~= first);
    assert(bytes.subrange(0, offset) =~= bytes.take(offset));
    first.len() as int
}

/// In a UTF-8 document without a CR LF pair, a place in the text lies in the file as many bytes
/// behind the byte order mark as the text before it has in UTF-8.
pub proof fn offsets_count_bytes_behind_the_mark(
    document: TextDocument,
    display: Seq<char>,
    raw: Seq<u8>,
    label: Option<Seq<char>>,
    text: Seq<char>,
    offset: int,
)
    requires
        document.opened_from(display, raw, label),
        editable::editable_error(document.validated(), raw) is None,
        pipeline::decoded_content(raw, document.validated().detected@) == Some(text),
        document.validated().detected@.charset is Utf8,
        forall|i: int| !closes_pair(text, i),
        0 <= offset <= encode_utf8(text).len(),
        is_char_boundary(encode_utf8(text), offset),
    ensures
        document.logical() == text,
        raw == raw.take(document.validated().detected@.bom_len as int) + encode_utf8(text),
        document.raw_at(offset) == Some(document.validated().detected@.bom_len + offset),
{
    let bom = document.validated().detected@.bom_len as int;
    let bytes = encode_utf8(text);
    let count = boundary_ends_a_prefix(text, offset);
    let before = text.take(count);
    assert forall|i: int| !closes_pair(before, i) by {
        assert(!closes_pair(text, i));
    }
    pairs_read_as_line_feeds(text, 0);
    pairs_read_as_line_feeds(before, 0);
    places_lie_behind_the_bytes_before_them(document, display, raw, label, text, count);
    places_lie_behind_the_bytes_before_them(
        document,
        display,
        raw,
        label,
        text,
        text.len() as int,
    );
    utf8_fragments(before);
    utf8_fragments(text);
    assert(text.take(text.len() as int) =~= text);
    assert(bytes.take(offset).len() == offset);
    utf8_text_follows_the_mark(raw, document.validated().detected@, text);
}

proof fn utf8_text_follows_the_mark(raw: Seq<u8>, detected: DetectedSpec, text: Seq<char>)
    requires
        pipeline::decoded_content(raw, detected) == Some(text),
        detected.charset is Utf8,
        detected.bom_len <= raw.len(),
    ensures
        raw == raw.take(detected.bom_len as int) + encode_utf8(text),
{
    let bom = detected.bom_len as int;
    decode_utf8_encode_utf8(raw.skip(bom));
    assert(raw =~= raw.take(bom) + raw.skip(bom));
}

proof fn utf8_fragments(text: Seq<char>)
    ensures
        editable::char_fragments(Charset::Utf8, text) == Some(encode_utf8(text)),
    decreases text.len(),
{
    if text.len() == 0 {
        assert(encode_utf8(text) =~= Seq::<u8>::empty());
    } else {
        let last = seq![text.last()];
        utf8_fragments(text.drop_last());
        utf8_text_bytes(last);
        utf8::encode_utf8_concat(text.drop_last(), last);
        assert(text.drop_last() + last =~= text);
    }
}

/// A file with the bytes of each match, `bom` bytes further on, replaced by the UTF-8 of what the
/// match becomes, up to the end of the last match.
pub open spec fn replaced_bytes(raw: Seq<u8>, bom: int, matches: Seq<MatchSpec>) -> Seq<u8>
    decreases matches.len(),
{
    if matches.len() == 0 {
        Seq::empty()
    } else {
        let from = if matches.len() == 1 {
            0
        } else {
            bom + matches[matches.len() - 2].end
        };
        replaced_bytes(raw, bom, matches.drop_last()) + raw.subrange(
            from,
            bom + matches.last().start,
        ) + encode_utf8(matches.last().expanded)
    }
}

/// Where the last match ends in the file.
pub open spec fn replaced_to(bom: int, matches: Seq<MatchSpec>) -> int {
    if matches.len() == 0 {
        0
    } else {
        bom + matches.last().end
    }
}

/// The whole file with the bytes of each match replaced by the UTF-8 of what the match becomes.
pub open spec fn replaced_file(raw: Seq<u8>, bom: int, matches: Seq<MatchSpec>) -> Seq<u8> {
    replaced_bytes(raw, bom, matches) + raw.skip(replaced_to(bom, matches))
}

spec fn ends_line(bytes: Seq<u8>) -> bool {
    bytes.len() > 0 && bytes.last() == 10
}

/// Whether a document is a UTF-8 file whose text has a place in it for each of its bytes.
spec fn flat(document: TextDocument, raw: Seq<u8>, text: Seq<char>, bom: int) -> bool {
    &&& 0 <= bom
    &&& document.raw() == raw
    &&& document.logical() == text
    &&& document.trailing_newline() == (text.len() > 0 && text.last() == '\n')
    &&& raw.len() == bom + encode_utf8(text).len()
    &&& raw.skip(bom) == encode_utf8(text)
    &&& bom > 0 ==> raw[bom - 1] != 10
    &&& forall|offset: int|
        0 <= offset <= encode_utf8(text).len() && is_char_boundary(encode_utf8(text), offset)
            ==> #[trigger] document.raw_at(offset) == Some(bom + offset)
    &&& forall|inserted: Seq<char>| #[trigger]
        document.target_bytes(inserted) == Some(encode_utf8(inserted))
}

proof fn utf8_documents_are_flat(
    document: TextDocument,
    display: Seq<char>,
    raw: Seq<u8>,
    label: Option<Seq<char>>,
    text: Seq<char>,
)
    requires
        document.opened_from(display, raw, label),
        editable::editable_error(document.validated(), raw) is None,
        pipeline::decoded_content(raw, document.validated().detected@) == Some(text),
        document.validated().detected@.charset is Utf8,
        forall|i: int| !closes_pair(text, i),
    ensures
        flat(document, raw, text, document.validated().detected@.bom_len as int),
{
    let bom = document.validated().detected@.bom_len as int;
    let bytes = encode_utf8(text);
    encode_utf8_valid_utf8(text);
    is_char_boundary_start_end_of_seq(bytes);
    offsets_count_bytes_behind_the_mark(document, display, raw, label, text, 0);
    assert(raw.len() == bom + bytes.len());
    assert(raw.skip(bom) =~= bytes);
    if bom > 0 {
        mark_ends_no_line(document, display, raw, label);
    }
    assert forall|offset: int| 0 <= offset <= bytes.len() && is_char_boundary(
        bytes,
        offset,
    ) implies #[trigger] document.raw_at(offset) == Some(bom + offset) by {
        offsets_count_bytes_behind_the_mark(document, display, raw, label, text, offset);
    }
    no_position(text.len() as int, |i: int| closes_pair(text, i));
    assert forall|inserted: Seq<char>| #[trigger]
        document.target_bytes(inserted) == Some(encode_utf8(inserted)) by {
        inserted_text_has_the_line_ends_of_the_document(
            document,
            display,
            raw,
            label,
            text,
            inserted,
        );
    }
}

proof fn shorter_in_order(matches: Seq<MatchSpec>, bytes: Seq<u8>)
    requires
        matches.len() > 0,
        pattern::in_order(matches, bytes.len() as int),
        pattern::taken_from(matches, bytes),
    ensures
        pattern::in_order(matches.drop_last(), bytes.len() as int),
        pattern::taken_from(matches.drop_last(), bytes),
{
    let rest = matches.drop_last();
    assert forall|i: int| 0 <= i < rest.len() implies rest[i] == matches[i] by {}
    assert forall|i: int, j: int| 0 <= i < j < rest.len() implies (#[trigger] rest[i]).end <= (
    #[trigger] rest[j]).start by {
        assert(rest[i] == matches[i] && rest[j] == matches[j]);
    }
}

spec fn flat_progress(
    done: replacement::Progress,
    raw: Seq<u8>,
    text: Seq<char>,
    bom: int,
    to: int,
    replaced: Seq<u8>,
) -> bool {
    &&& 0 <= done.logical <= encode_utf8(text).len()
    &&& 0 <= done.raw <= to <= raw.len()
    &&& done.raw == bom + done.logical || done.raw == 0 && done.logical == 0 && done.bytes.len()
        == 0 && !done.ends_newline
    &&& done.bytes + raw.subrange(done.raw, to) == replaced
    &&& done.bytes.len() > 0 ==> done.ends_newline == ends_line(done.bytes)
    &&& done.bytes.len() == 0 ==> !done.ends_newline
}

proof fn flat_step(
    document: TextDocument,
    raw: Seq<u8>,
    text: Seq<char>,
    bom: int,
    before: replacement::Progress,
    found: MatchSpec,
    limit_mib: u64,
    earlier: int,
    replaced: Seq<u8>,
)
    requires
        flat(document, raw, text, bom),
        0 <= found.start <= found.end <= encode_utf8(text).len(),
        is_char_boundary(encode_utf8(text), found.start),
        is_char_boundary(encode_utf8(text), found.end),
        earlier <= bom + found.start,
        flat_progress(before, raw, text, bom, earlier, replaced),
        replacement::applied(document, before, found, limit_mib) is Ok,
    ensures
        flat_progress(
            replacement::applied(document, before, found, limit_mib)->Ok_0,
            raw,
            text,
            bom,
            bom + found.end,
            replaced + raw.subrange(earlier, bom + found.start) + encode_utf8(found.expanded),
        ),
{
    let start = bom + found.start;
    let to = bom + found.end;
    let encoded = encode_utf8(found.expanded);
    let done = replacement::applied(document, before, found, limit_mib)->Ok_0;
    last_utf8_byte(found.expanded);
    assert(document.raw_at(found.start) == Some(start));
    assert(document.raw_at(found.end) == Some(to));
    assert(document.target_bytes(found.expanded) == Some(encoded));
    if found.start == found.end && found.expanded.len() == 0 {
        assert(done == before);
        assert(before.bytes + raw.subrange(before.raw, to) =~= before.bytes + raw.subrange(
            before.raw,
            earlier,
        ) + raw.subrange(earlier, start) + encoded);
    } else {
        let piece = raw.subrange(before.raw, start);
        assert(done.bytes == before.bytes + piece + encoded);
        assert(done.raw == to);
        assert(done.bytes + raw.subrange(to, to) =~= before.bytes + raw.subrange(
            before.raw,
            earlier,
        ) + raw.subrange(earlier, start) + encoded);
        let gap = encode_utf8(text).subrange(before.logical, found.start);
        if before.raw == bom + before.logical {
            assert(piece =~= gap) by {
                assert forall|i: int| 0 <= i < gap.len() implies piece[i] == gap[i] by {
                    assert(raw.skip(bom)[before.logical + i] == raw[bom + before.logical + i]);
                }
            }
        } else if gap.len() > 0 {
            assert(raw.skip(bom)[found.start - 1] == raw[start - 1]);
            assert(piece.last() == gap.last());
        }
    }
}

proof fn utf8_applied(
    document: TextDocument,
    raw: Seq<u8>,
    text: Seq<char>,
    bom: int,
    matches: Seq<MatchSpec>,
    limit_mib: u64,
)
    requires
        flat(document, raw, text, bom),
        pattern::in_order(matches, encode_utf8(text).len() as int),
        pattern::taken_from(matches, encode_utf8(text)),
        replacement::all_applied(document, matches, limit_mib) is Ok,
    ensures
        flat_progress(
            replacement::all_applied(document, matches, limit_mib)->Ok_0,
            raw,
            text,
            bom,
            replaced_to(bom, matches),
            replaced_bytes(raw, bom, matches),
        ),
    decreases matches.len(),
{
    if matches.len() == 0 {
        assert(Seq::<u8>::empty() + raw.subrange(0, 0) =~= Seq::<u8>::empty());
    } else {
        let rest = matches.drop_last();
        let found = matches[matches.len() - 1];
        shorter_in_order(matches, encode_utf8(text));
        utf8_applied(document, raw, text, bom, rest, limit_mib);
        if rest.len() > 0 {
            assert(rest.last() == matches[matches.len() - 2]);
            assert(matches[matches.len() - 2].end <= found.start);
        }
        flat_step(
            document,
            raw,
            text,
            bom,
            replacement::all_applied(document, rest, limit_mib)->Ok_0,
            found,
            limit_mib,
            replaced_to(bom, rest),
            replaced_bytes(raw, bom, rest),
        );
    }
}

proof fn last_utf8_byte(text: Seq<char>)
    ensures
        (encode_utf8(text).len() == 0) == (text.len() == 0),
        text.len() > 0 ==> ends_line(encode_utf8(text)) == (text.last() == '\n'),
{
    replacement::last_byte_of(text);
}

proof fn mark_ends_no_line(
    document: TextDocument,
    display: Seq<char>,
    raw: Seq<u8>,
    label: Option<Seq<char>>,
)
    requires
        document.opened_from(display, raw, label),
        document.validated().detected@.charset is Utf8,
        document.validated().detected@.bom_len > 0,
        document.validated().detected@.bom_len <= raw.len(),
    ensures
        raw[document.validated().detected@.bom_len - 1] != 10,
{
    encoding_laws::only_its_own_mark_is_left_out(raw, label);
    let mark = encoding_laws::mark_of(Charset::Utf8);
    assert(raw[2] == mark[2]);
}

/// Replacing in a UTF-8 document without a CR LF pair writes the file with the bytes of each match
/// replaced by the UTF-8 of what the match becomes, and every other byte as it was. Only a final
/// line feed is added where the text had one and lost it, or dropped where the text had none and
/// got one.
pub proof fn utf8_replacement_touches_only_the_matches(
    document: TextDocument,
    display: Seq<char>,
    raw: Seq<u8>,
    label: Option<Seq<char>>,
    text: Seq<char>,
    matches: Seq<MatchSpec>,
    limit_mib: u64,
)
    requires
        document.opened_from(display, raw, label),
        editable::editable_error(document.validated(), raw) is None,
        pipeline::decoded_content(raw, document.validated().detected@) == Some(text),
        document.validated().detected@.charset is Utf8,
        forall|i: int| !closes_pair(text, i),
        pattern::in_order(matches, encode_utf8(text).len() as int),
        pattern::taken_from(matches, encode_utf8(text)),
        replacement::replacement_outcome(document, matches, limit_mib) is Ok,
    ensures
        ({
            let bytes = replacement::replacement_outcome(document, matches, limit_mib)->Ok_0.0;
            let bom = document.validated().detected@.bom_len as int;
            let plain = replaced_file(raw, bom, matches);
            let closed = plain.len() > 0 && plain.last() == 10;
            if (text.len() > 0 && text.last() == '\n') == closed {
                bytes == plain
            } else if closed {
                bytes == plain.drop_last()
            } else {
                bytes == plain.push(10)
            }
        }),
{
    let bom = document.validated().detected@.bom_len as int;
    utf8_documents_are_flat(document, display, raw, label, text);
    utf8_applied(document, raw, text, bom, matches, limit_mib);
    flat_finish(
        document,
        raw,
        text,
        bom,
        replacement::all_applied(document, matches, limit_mib)->Ok_0,
        limit_mib,
        replaced_to(bom, matches),
        replaced_bytes(raw, bom, matches),
    );
}

proof fn flat_finish(
    document: TextDocument,
    raw: Seq<u8>,
    text: Seq<char>,
    bom: int,
    done: replacement::Progress,
    limit_mib: u64,
    to: int,
    replaced: Seq<u8>,
)
    requires
        flat(document, raw, text, bom),
        flat_progress(done, raw, text, bom, to, replaced),
        replacement::finished(document, done, limit_mib) is Ok,
    ensures
        ({
            let bytes = replacement::finished(document, done, limit_mib)->Ok_0;
            let plain = replaced + raw.skip(to);
            if (text.len() > 0 && text.last() == '\n') == ends_line(plain) {
                bytes == plain
            } else if ends_line(plain) {
                bytes == plain.drop_last()
            } else {
                bytes == plain.push(10)
            }
        }),
{
    let logical = encode_utf8(text);
    let plain = replaced + raw.skip(to);
    let rest = raw.subrange(done.raw, raw.len() as int);
    assert(rest =~= raw.subrange(done.raw, to) + raw.skip(to));
    assert(done.bytes + rest =~= plain);
    let tail = logical.subrange(done.logical, logical.len() as int);
    let ends = replacement::ends_after_bytes(done.ends_newline, tail);
    assert(raw.skip(bom).len() == logical.len());
    if tail.len() > 0 {
        assert(raw.skip(bom)[logical.len() - 1] == raw[raw.len() - 1]);
        assert(tail.last() == rest.last());
        assert(plain.last() == rest.last());
    } else if rest.len() > 0 {
        assert(bom > 0);
        assert(plain.last() == raw[bom - 1]);
    } else {
        assert(rest =~= Seq::<u8>::empty());
        assert(plain =~= done.bytes);
    }
    assert(ends == ends_line(plain));
    let newline = "\n"@;
    reveal_strlit("\n");
    last_utf8_byte(newline);
    one_line_feed_byte(newline);
    assert(document.target_bytes(newline) == Some(encode_utf8(newline)));
    assert(encode_utf8(newline) =~= seq![10u8]);
    assert(plain + seq![10u8] =~= plain.push(10));
    if ends_line(plain) {
        assert(plain.skip(plain.len() - 1) =~= seq![10u8]);
        assert(plain.take(plain.len() - 1) =~= plain.drop_last());
    }
}

proof fn one_line_feed_byte(newline: Seq<char>)
    requires
        newline.len() == 1,
        newline[0] == '\n',
    ensures
        encode_utf8(newline).len() == 1,
{
    assert(newline.drop_first() =~= Seq::<char>::empty());
    assert(encode_utf8(newline.drop_first()) =~= Seq::<u8>::empty());
    assert(encode_utf8(newline) == encode_scalar(newline[0] as u32) + encode_utf8(
        newline.drop_first(),
    ));
}

/// The matches that change something: those of some text, and those that become some text.
pub open spec fn changing(matches: Seq<MatchSpec>) -> Seq<MatchSpec> {
    matches.filter(|found: MatchSpec| found.start != found.end || found.expanded.len() > 0)
}

/// The matches that an analysis keeps are those that change something.
pub proof fn kept_are_changing(matches: Seq<MatchSpec>)
    ensures
        replacement::kept(matches) == changing(matches),
    decreases matches.len(),
{
    reveal(Seq::filter);
    if matches.len() > 0 {
        kept_are_changing(matches.drop_last());
    } else {
        assert(changing(matches) =~= Seq::<MatchSpec>::empty());
    }
}

proof fn kept_are_taken(matches: Seq<MatchSpec>, bytes: Seq<u8>)
    requires
        pattern::taken_from(matches, bytes),
        forall|i: int|
            0 <= i < matches.len() ==> 0 <= (#[trigger] matches[i]).start <= matches[i].end
                <= bytes.len(),
    ensures
        pattern::taken_from(replacement::kept(matches), bytes),
        forall|i: int|
            0 <= i < replacement::kept(matches).len() ==> 0 <= (#[trigger] replacement::kept(
                matches,
            )[i]).start <= replacement::kept(matches)[i].end <= bytes.len(),
    decreases matches.len(),
{
    if matches.len() > 0 {
        let rest = matches.drop_last();
        assert forall|i: int| 0 <= i < rest.len() implies rest[i] == matches[i] by {}
        kept_are_taken(rest, bytes);
        let found = matches.last();
        assert(found == matches[matches.len() - 1]);
        let kept = replacement::kept(matches);
        let before = replacement::kept(rest);
        assert forall|i: int| 0 <= i < kept.len() implies {
            &&& is_char_boundary(bytes, (#[trigger] kept[i]).start)
            &&& is_char_boundary(bytes, kept[i].end)
            &&& encode_utf8(kept[i].matched) == bytes.subrange(kept[i].start, kept[i].end)
            &&& 0 <= kept[i].start <= kept[i].end <= bytes.len()
        } by {
            if i < before.len() {
                assert(kept[i] == before[i]);
            } else {
                assert(kept[i] == found);
            }
        }
    }
}

proof fn feeds_are_byte_positions(bytes: Seq<u8>, end: int)
    requires
        0 <= end <= bytes.len(),
    ensures
        crate::bytes::line_feeds(bytes.take(end)) == positions(
            end,
            |i: int| bytes[i] == 10,
        ).len(),
    decreases end,
{
    let feeds = |i: int| bytes[i] == 10;
    one_more_position(end, feeds);
    if end > 0 {
        one_more_position(end - 1, feeds);
        feeds_are_byte_positions(bytes, end - 1);
        assert(bytes.take(end).drop_last() =~= bytes.take(end - 1));
        assert(bytes.take(end).last() == bytes[end - 1]);
    } else {
        assert(bytes.take(end) =~= Seq::<u8>::empty());
    }
}

/// Each preview line is that of one match, up to the limit.
pub proof fn preview_at(document: TextDocument, found: Seq<MatchSpec>, limit: nat)
    ensures
        ({
            let lines = replacement::preview_lines(document, found, limit);
            &&& lines.len() == if found.len() < limit {
                found.len()
            } else {
                limit
            }
            &&& forall|i: int|
                0 <= i < lines.len() ==> #[trigger] lines[i] == replacement::preview_line(
                    document,
                    found[i],
                )
        }),
    decreases found.len(),
{
    if found.len() > 0 {
        preview_at(document, found.drop_last(), limit);
        let lines = replacement::preview_lines(document, found, limit);
        let before = replacement::preview_lines(document, found.drop_last(), limit);
        assert forall|i: int| 0 <= i < lines.len() implies #[trigger] lines[i]
            == replacement::preview_line(document, found[i]) by {
            if i < before.len() {
                assert(lines[i] == before[i]);
                assert(found.drop_last()[i] == found[i]);
            }
        }
    }
}

/// The preview has a line for each of the first matches that change something, as many as asked
/// for. The line gives the number of the line that the match starts on, then what stands in the
/// text between the two ends of the match, an arrow, and what is written there instead.
pub proof fn previews_show_the_match_and_then_what_it_becomes(
    document: TextDocument,
    matches: Seq<MatchSpec>,
    limit: nat,
    i: int,
)
    requires
        pattern::in_order(matches, encode_utf8(document.logical()).len() as int),
        pattern::taken_from(matches, encode_utf8(document.logical())),
        0 <= i < limit,
        i < changing(matches).len(),
    ensures
        ({
            let bytes = encode_utf8(document.logical());
            let lines = replacement::preview_lines(document, replacement::kept(matches), limit);
            let found = changing(matches)[i];
            let here = decode_utf8(bytes.subrange(found.start, found.end));
            &&& lines.len() == if changing(matches).len() < limit {
                changing(matches).len()
            } else {
                limit
            }
            &&& 0 <= found.start <= found.end <= bytes.len()
            &&& lines[i] == text::decimal(
                positions(found.start, |p: int| bytes[p] == 10).len() + 1,
            ) + seq![':', ' '] + replacement::preview_spec(here) + seq![' ', '-', '>', ' ']
                + replacement::preview_spec(found.expanded)
        }),
{
    let bytes = encode_utf8(document.logical());
    kept_are_changing(matches);
    kept_are_taken(matches, bytes);
    let kept = replacement::kept(matches);
    preview_at(document, kept, limit);
    let found = kept[i];
    feeds_are_byte_positions(bytes, found.start);
    encode_utf8_decode_utf8(found.matched);
    reveal_strlit(": ");
    reveal_strlit(" -> ");
    assert(": "@ =~= seq![':', ' ']);
    assert(" -> "@ =~= seq![' ', '-', '>', ' ']);
}

/// A preview shows a text of up to 160 characters without line breaks as it is. It spells out
/// line breaks, and of what is then longer it shows the first 160 characters and an ellipsis.
pub proof fn previews_show_the_start_of_a_text(text: Seq<char>)
    ensures
        (forall|i: int| 0 <= i < text.len() ==> text[i] != '\n' && text[i] != '\r') ==> {
            &&& text.len() <= 160 ==> replacement::preview_spec(text) == text
            &&& text.len() > 160 ==> replacement::preview_spec(text) == text.take(160).push('…')
        },
        text::escaped_breaks(text).len() <= 160 ==> replacement::preview_spec(text)
            == text::escaped_breaks(text),
        text::escaped_breaks(text).len() > 160 ==> replacement::preview_spec(text)
            == text::escaped_breaks(text).take(160).push('…'),
{
    text_laws::breaks_are_spelled_out(text, 0);
    reveal_strlit("…");
    if text::escaped_breaks(text).len() > 160 {
        assert(replacement::preview_spec(text) =~= text::escaped_breaks(text).take(160).push('…'));
    }
}

proof fn logical_offset_at(text: Seq<char>, raw: Seq<int>, n: int, cut: int)
    requires
        0 <= cut <= n <= text.len(),
        !closes_pair(text, cut),
    ensures
        document::logical_offsets(text, raw, n).len() == document::logical_prefix(text, n).len() + 1,
        document::logical_prefix(text, cut).len() <= document::logical_prefix(text, n).len(),
        document::logical_offsets(text, raw, n)[document::logical_prefix(text, cut).len() as int]
            == raw[cut],
    decreases n,
{
    if n > cut {
        let before = if document::ends_in_crlf(text, n) {
            n - 2
        } else {
            n - 1
        };
        if document::ends_in_crlf(text, n) {
            assert(closes_pair(text, n - 1));
        }
        logical_offset_at(text, raw, before, cut);
    } else if n > 0 {
        let before = if document::ends_in_crlf(text, n) {
            n - 2
        } else {
            n - 1
        };
        offsets_len(text, raw, before);
    }
}

proof fn offsets_len(text: Seq<char>, raw: Seq<int>, n: int)
    requires
        0 <= n <= text.len(),
    ensures
        document::logical_offsets(text, raw, n).len() == document::logical_prefix(text, n).len() + 1,
    decreases n,
{
    if n > 0 {
        offsets_len(text, raw, n - 1);
        if n > 1 {
            offsets_len(text, raw, n - 2);
        }
    }
}

/// In every editable encoding and with any line ends, the place behind some text lies in the file
/// behind the byte order mark and the bytes of that text, line ends included. What is edited is the
/// text with its CR LF pairs read as line feeds.
pub proof fn places_lie_behind_the_bytes_before_them(
    document: TextDocument,
    display: Seq<char>,
    raw: Seq<u8>,
    label: Option<Seq<char>>,
    text: Seq<char>,
    cut: int,
)
    requires
        document.opened_from(display, raw, label),
        editable::editable_error(document.validated(), raw) is None,
        pipeline::decoded_content(raw, document.validated().detected@) == Some(text),
        0 <= cut <= text.len(),
        !closes_pair(text, cut),
    ensures
        ({
            let detected = document.validated().detected@;
            let before = document::logical_text(text.take(cut));
            &&& before.is_prefix_of(document.logical())
            &&& document.raw_at(encode_utf8(before).len() as int) matches Some(at)
            &&& detected.bom_len <= at <= raw.len()
            &&& editable::char_fragments(detected.charset, text.take(cut)) == Some(
                raw.subrange(detected.bom_len as int, at),
            )
        }),
{
    let detected = document.validated().detected@;
    let bom = detected.bom_len as int;
    let before = document::logical_text(text.take(cut));
    let logical = document::logical_text(text);
    let offsets = editable::raw_offsets(detected.charset, text, bom);
    let places = document::logical_offsets(text, offsets, text.len() as int);
    logical_parts(text, cut, text.len() as int);
    logical_same(text, text.take(cut), cut);
    assert(logical.take(before.len() as int) =~= before);
    logical_offset_at(text, offsets, text.len() as int, cut);
    editable::raw_offsets_cut_between_characters(document.validated(), raw, text, cut);
    document::offset_map_holds_boundaries(logical, places);
    assert(editable::offset_map(logical, places)[encode_utf8(
        logical.take(before.len() as int),
    ).len() as int] == Some(places[before.len() as int]));
}

/// Each character has its own bytes: in a Unicode encoding those of a text are the bytes of its
/// characters one after the other.
pub proof fn characters_are_written_one_by_one(
    charset: Charset,
    left: Seq<char>,
    right: Seq<char>,
)
    requires
        !(charset is Legacy),
    ensures
        editable::fragment_bytes(charset, left + right) == Some(
            editable::fragment_bytes(charset, left)->Some_0 + editable::fragment_bytes(
                charset,
                right,
            )->Some_0,
        ),
        right.len() == 1 ==> editable::fragment_bytes(charset, right) == Some(
            editable::unicode_bytes(charset, right[0]),
        ),
    decreases right.len(),
{
    if right.len() == 0 {
        assert(left + right =~= left);
        let bytes = editable::unicode_text_bytes(charset, left);
        assert(bytes + Seq::<u8>::empty() =~= bytes);
    } else {
        let rest = right.drop_last();
        characters_are_written_one_by_one(charset, left, rest);
        assert((left + right).drop_last() =~= left + rest);
        let first = editable::unicode_text_bytes(charset, left);
        let middle = editable::unicode_text_bytes(charset, rest);
        let last = editable::unicode_bytes(charset, right.last());
        assert((first + middle) + last =~= first + (middle + last));
        if right.len() == 1 {
            assert(rest =~= Seq::<char>::empty());
            assert(middle =~= Seq::<u8>::empty());
            assert(middle + last =~= last);
        }
    }
}

} // verus!
