//! Editable text snapshots: a logical view with line feeds only, and for each of its character
//! boundaries the raw offset, so that untouched bytes stay as they are.

use crate::edit::digest;
use crate::edit::digest::revision_of;
use crate::encoding::decoder::Charset;
use crate::encoding::editable;
use crate::encoding::editable::{encode_fragment, EditableDecodedText};
use crate::encoding::pipeline;
use crate::encoding::pipeline::{
    validate_source_encoding, DecisionSpec, EncodingDecision, ValidatedFileEncoding,
};
use crate::encoding::rejection;
use crate::encoding::stats;
use crate::encoding::utf8;
use crate::text;
use crate::text::{chars_of, mib_text, same_bytes};
use vstd::prelude::*;
use vstd::string::*;
use vstd::utf8::*;

verus! {

/// The line end used for every line break that an edit introduces.
#[derive(Clone, Copy, Debug, PartialEq, Eq, Structural)]
pub enum EolStyle {
    Lf,
    Crlf,
}

impl EolStyle {
    /// The characters of the line end.
    pub open spec fn chars(self) -> Seq<char> {
        match self {
            EolStyle::Lf => "\n"@,
            EolStyle::Crlf => "\r\n"@,
        }
    }

    /// The characters of the line end.
    pub fn as_str(self) -> (text: &'static str)
        ensures
            text@ == self.chars(),
    {
        match self {
            EolStyle::Lf => "\n",
            EolStyle::Crlf => "\r\n",
        }
    }
}

/// Whether the first `n` characters end with a CRLF pair.
pub open spec fn ends_in_crlf(text: Seq<char>, n: int) -> bool {
    2 <= n <= text.len() && text[n - 1] == '\n' && text[n - 2] == '\r'
}

/// The first `n` characters with each CRLF pair made one line feed.
pub open spec fn logical_prefix(text: Seq<char>, n: int) -> Seq<char>
    decreases n,
{
    if n <= 0 || n > text.len() {
        Seq::empty()
    } else if ends_in_crlf(text, n) {
        logical_prefix(text, n - 2).push('\n')
    } else {
        logical_prefix(text, n - 1).push(text[n - 1])
    }
}

/// The logical text: each CRLF pair made one line feed.
pub open spec fn logical_text(text: Seq<char>) -> Seq<char> {
    logical_prefix(text, text.len() as int)
}

/// The raw offsets of the character boundaries of [`logical_prefix`].
pub open spec fn logical_offsets(text: Seq<char>, raw: Seq<int>, n: int) -> Seq<int>
    decreases n,
{
    if n <= 0 || n > text.len() {
        seq![raw[0]]
    } else if ends_in_crlf(text, n) {
        logical_offsets(text, raw, n - 2).push(raw[n])
    } else {
        logical_offsets(text, raw, n - 1).push(raw[n])
    }
}

/// The number of CRLF pairs among the first `n` characters.
pub open spec fn crlf_count(text: Seq<char>, n: int) -> nat
    decreases n,
{
    if n <= 0 || n > text.len() {
        0
    } else if ends_in_crlf(text, n) {
        crlf_count(text, n - 2) + 1
    } else {
        crlf_count(text, n - 1)
    }
}

/// The number of line feeds outside CRLF pairs among the first `n` characters.
pub open spec fn lf_count(text: Seq<char>, n: int) -> nat
    decreases n,
{
    if n <= 0 || n > text.len() {
        0
    } else if ends_in_crlf(text, n) {
        lf_count(text, n - 2)
    } else {
        lf_count(text, n - 1) + if text[n - 1] == '\n' {
            1nat
        } else {
            0nat
        }
    }
}

/// The line end that the majority of lines has; a tie goes to the line feed.
pub open spec fn dominant_eol(text: Seq<char>) -> EolStyle {
    if crlf_count(text, text.len() as int) > lf_count(text, text.len() as int) {
        EolStyle::Crlf
    } else {
        EolStyle::Lf
    }
}

/// Whether raw offsets ascend within a content of `limit` bytes.
pub open spec fn ascending(raw: Seq<int>, limit: int) -> bool {
    forall|i: int, j: int|
        0 <= i <= j < raw.len() ==> 0 <= #[trigger] raw[i] <= #[trigger] raw[j] <= limit
}

/// Whether the known offsets of a map ascend within a content of `limit` bytes.
pub open spec fn map_ascends(map: Seq<Option<int>>, limit: int) -> bool {
    forall|i: int, j: int|
        0 <= i <= j < map.len() && #[trigger] map[i] is Some && #[trigger] map[j] is Some ==> 0
            <= map[i]->Some_0 <= map[j]->Some_0 <= limit
}

proof fn push_char_bytes(text: Seq<char>, character: char)
    ensures
        encode_utf8(text.push(character)) == encode_utf8(text) + encode_scalar(character as u32),
        encode_scalar(character as u32).len() >= 1,
{
    let one = seq![character];
    utf8::encode_utf8_concat(text, one);
    assert(text + one =~= text.push(character));
    assert(one.drop_first() =~= Seq::<char>::empty());
    assert(encode_utf8(one.drop_first()) =~= Seq::<u8>::empty());
    assert(encode_utf8(one) =~= encode_scalar(character as u32));
}

/// An offset map has one entry more than the text has bytes, and at each character boundary it
/// holds the raw offset of that boundary.
pub proof fn offset_map_holds_boundaries(text: Seq<char>, raw: Seq<int>)
    requires
        raw.len() == text.len() + 1,
    ensures
        editable::offset_map(text, raw).len() == encode_utf8(text).len() + 1,
        forall|k: int|
            0 <= k <= text.len() ==> {
                &&& encode_utf8(#[trigger] text.take(k)).len() < editable::offset_map(
                    text,
                    raw,
                ).len()
                &&& editable::offset_map(text, raw)[encode_utf8(text.take(k)).len() as int] == Some(
                    raw[k],
                )
            },
    decreases text.len(),
{
    let map = editable::offset_map(text, raw);
    assert(text.take(text.len() as int) =~= text);
    if text.len() == 0 {
        assert(encode_utf8(text) =~= Seq::<u8>::empty());
        assert forall|k: int| 0 <= k <= text.len() implies {
            &&& encode_utf8(#[trigger] text.take(k)).len() < map.len()
            &&& map[encode_utf8(text.take(k)).len() as int] == Some(raw[k])
        } by {
            assert(text.take(k) =~= text);
        }
    } else {
        let shorter = text.drop_last();
        offset_map_holds_boundaries(shorter, raw.drop_last());
        push_char_bytes(shorter, text.last());
        assert(shorter.push(text.last()) =~= text);
        assert forall|k: int| 0 <= k <= text.len() implies {
            &&& encode_utf8(#[trigger] text.take(k)).len() < map.len()
            &&& map[encode_utf8(text.take(k)).len() as int] == Some(raw[k])
        } by {
            if k < text.len() {
                assert(text.take(k) =~= shorter.take(k));
            } else {
                assert(text.take(k) =~= text);
            }
        }
    }
}

/// A map of ascending offsets ascends.
pub proof fn offset_map_ascends(text: Seq<char>, raw: Seq<int>, limit: int)
    requires
        raw.len() == text.len() + 1,
        ascending(raw, limit),
    ensures
        map_ascends(editable::offset_map(text, raw), limit),
        forall|i: int|
            0 <= i < editable::offset_map(text, raw).len() && (#[trigger] editable::offset_map(
                text,
                raw,
            )[i]) is Some ==> editable::offset_map(text, raw)[i]->Some_0 <= raw.last(),
    decreases text.len(),
{
    let map = editable::offset_map(text, raw);
    if text.len() > 0 {
        let shorter = editable::offset_map(text.drop_last(), raw.drop_last());
        assert(ascending(raw.drop_last(), limit)) by {
            assert forall|i: int, j: int| 0 <= i <= j < raw.drop_last().len() implies 0
                <= #[trigger] raw.drop_last()[i] <= #[trigger] raw.drop_last()[j] <= limit by {
                assert(raw.drop_last()[i] == raw[i] && raw.drop_last()[j] == raw[j]);
            }
        }
        offset_map_ascends(text.drop_last(), raw.drop_last(), limit);
        let last = map.len() - 1;
        assert(raw.drop_last().last() == raw[raw.len() - 2]);
        assert(raw[raw.len() - 2] <= raw.last());
        assert forall|i: int| 0 <= i < map.len() && (#[trigger] map[i]) is Some implies map[i]->Some_0
            <= raw.last() && (i == last || (i < shorter.len() && map[i] == shorter[i])) by {
            if i < shorter.len() {
                assert(map[i] == shorter[i]);
            }
        }
        assert forall|i: int, j: int|
            0 <= i <= j < map.len() && #[trigger] map[i] is Some && #[trigger] map[j] is Some implies 0
            <= map[i]->Some_0 <= map[j]->Some_0 <= limit by {
            assert(raw.last() == raw[raw.len() - 1]);
            if i < shorter.len() {
                assert(shorter[i] is Some);
                if j < shorter.len() {
                    assert(shorter[j] is Some);
                } else {
                    assert(shorter[i]->Some_0 >= 0);
                }
            }
        }
    }
}

proof fn logical_shape(text: Seq<char>, raw: Seq<int>, n: int, limit: int)
    requires
        0 <= n <= text.len(),
        raw.len() == text.len() + 1,
        ascending(raw, limit),
    ensures
        logical_offsets(text, raw, n).len() == logical_prefix(text, n).len() + 1,
        logical_offsets(text, raw, n).last() == raw[n],
        logical_offsets(text, raw, n)[0] == raw[0],
        ascending(logical_offsets(text, raw, n), limit),
    decreases n,
{
    let offsets = logical_offsets(text, raw, n);
    if n > 0 {
        let before = if ends_in_crlf(text, n) {
            n - 2
        } else {
            n - 1
        };
        logical_shape(text, raw, before, limit);
        let shorter = logical_offsets(text, raw, before);
        assert(raw[before] <= raw[n]);
        assert forall|i: int, j: int| 0 <= i <= j < offsets.len() implies 0 <= #[trigger] offsets[i]
            <= #[trigger] offsets[j] <= limit by {
            if j < shorter.len() {
                assert(shorter[i] <= shorter[j]);
            } else if i < shorter.len() {
                assert(shorter[i] <= shorter[shorter.len() - 1]);
            }
        }
    }
}

/// The logical view of a decoded text.
struct LogicalView {
    logical: String,
    raw_boundaries: Vec<Option<usize>>,
    eol: EolStyle,
}

fn utf8_len(character: char) -> (len: usize)
    ensures
        len == encode_scalar(character as u32).len(),
        1 <= len <= 4,
{
    let value: u32 = character as u32;
    if value <= 0x7F {
        1
    } else if value <= 0x7FF {
        2
    } else if value <= 0xFFFF {
        3
    } else {
        4
    }
}

fn push_boundary(
    boundaries: &mut Vec<Option<usize>>,
    character: char,
    offset: usize,
    logical: Ghost<Seq<char>>,
    raw: Ghost<Seq<int>>,
)
    requires
        raw@.len() == logical@.len() + 1,
        editable::offsets_view(old(boundaries)@) == editable::offset_map(logical@, raw@),
    ensures
        editable::offsets_view(final(boundaries)@) == editable::offset_map(
            logical@.push(character),
            raw@.push(offset as int),
        ),
{
    let ghost before = boundaries@;
    let len = utf8_len(character);
    let mut inner: usize = 1;
    assert(boundaries@ =~= before + Seq::new(0, |i: int| None::<usize>));
    while inner < len
        invariant
            1 <= inner <= len <= 4,
            boundaries@ == before + Seq::new((inner - 1) as nat, |i: int| None::<usize>),
        decreases len - inner,
    {
        boundaries.push(None);
        assert(boundaries@ =~= before + Seq::new(inner as nat, |i: int| None::<usize>));
        inner += 1;
    }
    boundaries.push(Some(offset));
    proof {
        assert(logical@.push(character).drop_last() =~= logical@);
        assert(raw@.push(offset as int).drop_last() =~= raw@);
        assert(editable::offsets_view(boundaries@) =~= editable::offset_map(
            logical@.push(character),
            raw@.push(offset as int),
        ));
    }
}

/// Collapses CRLF pairs and carries the raw offsets along.
fn logical_view(editable: &EditableDecodedText, raw: Ghost<Seq<int>>) -> (view: LogicalView)
    requires
        raw@.len() == editable.text@.len() + 1,
        editable::offsets_view(editable.raw_boundaries@) == editable::offset_map(
            editable.text@,
            raw@,
        ),
    ensures
        view.logical@ == logical_text(editable.text@),
        editable::offsets_view(view.raw_boundaries@) == editable::offset_map(
            view.logical@,
            logical_offsets(editable.text@, raw@, editable.text@.len() as int),
        ),
        logical_offsets(editable.text@, raw@, editable.text@.len() as int).len()
            == view.logical@.len() + 1,
        view.eol == dominant_eol(editable.text@),
{
    let chars = chars_of(editable.text.as_str());
    let ghost text = editable.text@;
    let mut logical = String::new();
    let mut boundaries: Vec<Option<usize>> = Vec::new();
    let mut crlf: usize = 0;
    let mut lf: usize = 0;
    let mut index: usize = 0;
    let mut cursor: usize = 0;
    proof {
        offset_map_holds_boundaries(text, raw@);
        assert(text.take(0) =~= Seq::<char>::empty());
        assert(encode_utf8(text.take(0)) =~= Seq::<u8>::empty());
        assert(editable::offsets_view(editable.raw_boundaries@)[0] == Some(raw@[0]));
    }
    boundaries.push(editable.raw_boundaries[0]);
    proof {
        assert(editable::offsets_view(boundaries@) =~= editable::offset_map(
            logical_prefix(text, 0),
            logical_offsets(text, raw@, 0),
        ));
    }
    while index < chars.len()
        invariant
            index <= chars.len(),
            text == editable.text@,
            chars@ == text,
            raw@.len() == text.len() + 1,
            editable::offsets_view(editable.raw_boundaries@) == editable::offset_map(text, raw@),
            cursor == encode_utf8(text.take(index as int)).len(),
            cursor < editable.raw_boundaries@.len(),
            logical@ == logical_prefix(text, index as int),
            logical_offsets(text, raw@, index as int).len() == logical@.len() + 1,
            editable::offsets_view(boundaries@) == editable::offset_map(
                logical@,
                logical_offsets(text, raw@, index as int),
            ),
            crlf == crlf_count(text, index as int),
            lf == lf_count(text, index as int),
            crlf + lf <= index,
            0 < index < chars.len() && text[index - 1] == '\r' ==> text[index as int] != '\n',
        decreases chars.len() - index,
    {
        let character = chars[index];
        let pair = character == '\r' && index + 1 < chars.len() && chars[index + 1] == '\n';
        let step: usize = if pair {
            2
        } else {
            1
        };
        let shown = if pair {
            '\n'
        } else {
            character
        };
        let width: usize = if pair {
            2
        } else {
            utf8_len(character)
        };
        let next: usize = index + step;
        proof {
            offset_map_holds_boundaries(text, raw@);
            assert(text.take(index + 1) =~= text.take(index as int).push(character));
            push_char_bytes(text.take(index as int), character);
            if pair {
                assert(text.take(index + 2) =~= text.take(index + 1).push('\n'));
                push_char_bytes(text.take(index + 1), '\n');
                assert(encode_scalar('\r' as u32).len() == 1);
                assert(encode_scalar('\n' as u32).len() == 1);
            }
            assert(encode_utf8(text.take(next as int)).len() == cursor + width);
            assert(editable::offsets_view(editable.raw_boundaries@).len()
                == editable.raw_boundaries@.len());
            assert(editable::offsets_view(editable.raw_boundaries@)[cursor + width] == Some(
                raw@[next as int],
            ));
            assert(cursor + width < editable.raw_boundaries.len());
        }
        cursor = cursor + width;
        let offset = match editable.raw_boundaries[cursor] {
            Some(offset) => offset,
            None => 0,
        };
        let ghost before = logical_offsets(text, raw@, index as int);
        push_boundary(&mut boundaries, shown, offset, Ghost(logical@), Ghost(before));
        logical.push(shown);
        if pair {
            crlf = crlf + 1;
        } else if character == '\n' {
            lf = lf + 1;
        }
        index = next;
    }
    let eol = if crlf > lf {
        EolStyle::Crlf
    } else {
        EolStyle::Lf
    };
    LogicalView { logical, raw_boundaries: boundaries, eol }
}

proof fn raw_offsets_ascend(charset: Charset, text: Seq<char>, start: int)
    requires
        start >= 0,
        editable::char_fragments(charset, text) is Some,
    ensures
        editable::raw_offsets(charset, text, start).len() == text.len() + 1,
        editable::raw_offsets(charset, text, start).last() == start + editable::char_fragments(
            charset,
            text,
        )->Some_0.len(),
        editable::raw_offsets(charset, text, start)[0] == start,
        ascending(
            editable::raw_offsets(charset, text, start),
            start + editable::char_fragments(charset, text)->Some_0.len(),
        ),
    decreases text.len(),
{
    let offsets = editable::raw_offsets(charset, text, start);
    if text.len() > 0 {
        raw_offsets_ascend(charset, text.drop_last(), start);
        let shorter = editable::raw_offsets(charset, text.drop_last(), start);
        let limit = start + editable::char_fragments(charset, text)->Some_0.len();
        assert forall|i: int, j: int| 0 <= i <= j < offsets.len() implies 0 <= #[trigger] offsets[i]
            <= #[trigger] offsets[j] <= limit by {
            if j < shorter.len() {
                assert(shorter[i] <= shorter[j]);
            } else if i < shorter.len() {
                assert(shorter[i] <= shorter[shorter.len() - 1]);
            }
        }
    }
}

/// What is known of an edit target before its content is read.
#[derive(Clone, Copy, Debug)]
pub struct TargetFacts {
    /// Number of hard links to the target.
    pub hard_links: u64,
    /// Whether the target is a regular file.
    pub is_regular_file: bool,
    /// Length of the target in bytes.
    pub len: u64,
}

/// A limit in mebibytes as a number of bytes, as far as a machine word goes.
pub open spec fn limit_bytes(limit_mib: u64) -> nat {
    if limit_mib * 0x10_0000 > u64::MAX {
        u64::MAX as nat
    } else {
        (limit_mib * 0x10_0000) as nat
    }
}

/// Converts a limit in mebibytes.
pub fn limit_in_bytes(limit_mib: u64) -> (limit: u64)
    ensures
        limit == limit_bytes(limit_mib),
{
    match limit_mib.checked_mul(0x10_0000) {
        Some(limit) => limit,
        None => u64::MAX,
    }
}

/// Why a target must not be edited, before its content is read.
pub open spec fn target_error(
    requested: Seq<char>,
    target: Seq<char>,
    facts: TargetFacts,
    limit_mib: u64,
) -> Option<Seq<char>> {
    if facts.hard_links > 1 {
        Some(
            "Cannot safely edit "@ + target
                + ": it has multiple hard links, and an atomic replace would break them. Duplicate the file to a new path, or remove the extra links first."@,
        )
    } else if !facts.is_regular_file {
        Some(
            "Cannot edit non-regular file: "@ + requested
                + ". Only regular files are supported."@,
        )
    } else if facts.len > limit_bytes(limit_mib) {
        Some(
            "File too large for line edits: "@ + requested + " is "@ + text::mib(facts.len as nat)
                + " MiB (limit: "@ + text::decimal(limit_mib as nat) + " MiB)."@,
        )
    } else {
        None
    }
}

/// Checks a target before its content is read.
pub fn check_target(requested: &str, target: &str, facts: TargetFacts, limit_mib: u64) -> (result:
    Result<(), String>)
    ensures
        match result {
            Ok(()) => target_error(requested@, target@, facts, limit_mib) is None,
            Err(message) => target_error(requested@, target@, facts, limit_mib) == Some(message@),
        },
{
    if facts.hard_links > 1 {
        return Err(hard_link_message(target));
    }
    if !facts.is_regular_file {
        let mut message = "Cannot edit non-regular file: ".to_owned();
        message.append(requested);
        message.append(". Only regular files are supported.");
        return Err(message);
    }
    if facts.len > limit_in_bytes(limit_mib) {
        let mut message = "File too large for line edits: ".to_owned();
        message.append(requested);
        message.append(" is ");
        message.append(mib_text(facts.len).as_str());
        message.append(" MiB (limit: ");
        message.append(text::decimal_text(limit_mib).as_str());
        message.append(" MiB).");
        return Err(message);
    }
    Ok(())
}

fn hard_link_message(target: &str) -> (message: String)
    ensures
        message@ == "Cannot safely edit "@ + target@
            + ": it has multiple hard links, and an atomic replace would break them. Duplicate the file to a new path, or remove the extra links first."@,
{
    let mut message = "Cannot safely edit ".to_owned();
    message.append(target);
    message.append(
        ": it has multiple hard links, and an atomic replace would break them. Duplicate the file to a new path, or remove the extra links first.",
    );
    message
}

/// The message about a symbolic link that leads to no file.
pub fn dangling_link_message(requested: &str) -> (message: String)
    ensures
        message@ == "Cannot edit "@ + requested@
            + ": it is a symbolic link that does not resolve to a file."@,
{
    let mut message = "Cannot edit ".to_owned();
    message.append(requested);
    message.append(": it is a symbolic link that does not resolve to a file.");
    message
}

/// The message about a file that changed under an edit.
pub open spec fn concurrent_message_spec(path: Seq<char>) -> Seq<char> {
    path + " changed on disk during the edit; nothing was written. Re-read it and retry."@
}

/// The message about a file that changed under an edit.
pub fn concurrent_message(path: &str) -> (message: String)
    ensures
        message@ == concurrent_message_spec(path@),
{
    let mut message = path.to_owned();
    message.append(" changed on disk during the edit; nothing was written. Re-read it and retry.");
    message
}

/// `text` with each line feed written as the given line end.
pub open spec fn with_eol(text: Seq<char>, eol: EolStyle) -> Seq<char>
    decreases text.len(),
{
    if text.len() == 0 {
        Seq::empty()
    } else if text.last() == '\n' {
        with_eol(text.drop_last(), eol) + eol.chars()
    } else {
        with_eol(text.drop_last(), eol).push(text.last())
    }
}

fn write_eol(text: &str, eol: EolStyle) -> (result: String)
    ensures
        result@ == with_eol(text@, eol),
{
    let chars = chars_of(text);
    let mut result = String::new();
    let mut index: usize = 0;
    while index < chars.len()
        invariant
            index <= chars.len(),
            chars@ == text@,
            result@ == with_eol(chars@.take(index as int), eol),
        decreases chars.len() - index,
    {
        let character = chars[index];
        proof {
            assert(chars@.take(index + 1).drop_last() =~= chars@.take(index as int));
            assert(chars@.take(index + 1).last() == character);
        }
        if character == '\n' {
            result.append(eol.as_str());
        } else {
            result.push(character);
        }
        index += 1;
    }
    assert(chars@.take(chars@.len() as int) =~= chars@);
    result
}

/// Why a content cannot be opened for editing.
pub open spec fn open_error(
    display: Seq<char>,
    raw: Seq<u8>,
    current: Seq<u8>,
    explicit: Option<Seq<char>>,
    validated: Option<ValidatedFileEncoding>,
) -> Option<Seq<char>> {
    match pipeline::classify(raw, explicit) {
        DecisionSpec::Binary => Some(
            "Cannot read binary file as text: "@ + display
                + ". Use view=\"hex\" to inspect its raw bytes."@,
        ),
        DecisionSpec::Rejected(reason) => Some(rejection::rejection_message(reason, display)),
        DecisionSpec::Text { .. } => if current != raw {
            Some(concurrent_message_spec(display))
        } else {
            match validated {
                Some(validated) => match editable::editable_error(validated, raw) {
                    Some(reason) => Some(
                        "Cannot safely edit "@ + display + ": "@ + reason
                            + ". Convert the file to UTF-8 externally and retry."@,
                    ),
                    None => None,
                },
                None => None,
            }
        },
    }
}

/// A content that was read and validated, before it is read again.
pub struct DocumentDraft {
    display: String,
    raw: Vec<u8>,
    validated: ValidatedFileEncoding,
    label: Ghost<Option<Seq<char>>>,
}

impl DocumentDraft {
    /// The path as it is shown.
    pub closed spec fn display(&self) -> Seq<char> {
        self.display@
    }

    /// The bytes that were read.
    pub closed spec fn raw(&self) -> Seq<u8> {
        self.raw@
    }

    /// The label under which they were validated.
    pub closed spec fn label(&self) -> Option<Seq<char>> {
        self.label@
    }

    /// How the bytes were validated.
    pub closed spec fn validated(&self) -> ValidatedFileEncoding {
        self.validated
    }

    /// Whether the bytes are text, as validated.
    pub open spec fn wf(&self) -> bool {
        pipeline::classify(self.raw(), self.label()) == EncodingDecision::Text(self.validated())@
    }

    /// Validates a content. Only text is worth another look at the file.
    pub fn begin(display: String, raw: Vec<u8>, explicit: Option<&str>) -> (result: Result<
        DocumentDraft,
        String,
    >)
        ensures
            match result {
                Ok(draft) => {
                    &&& draft.wf()
                    &&& draft.display() == display@
                    &&& draft.raw() == raw@
                    &&& draft.label() == pipeline::str_view(explicit)
                },
                Err(message) => {
                    &&& !(pipeline::classify(raw@, pipeline::str_view(explicit)) is Text)
                    &&& forall|current: Seq<u8>, validated: Option<ValidatedFileEncoding>|
                        #[trigger] open_error(
                            display@,
                            raw@,
                            current,
                            pipeline::str_view(explicit),
                            validated,
                        ) == Some(message@)
                },
            },
    {
        match validate_source_encoding(raw.as_slice(), explicit) {
            EncodingDecision::Text(validated) => Ok(
                DocumentDraft {
                    display,
                    raw,
                    validated,
                    label: Ghost(pipeline::str_view(explicit)),
                },
            ),
            EncodingDecision::Binary => {
                let mut message = "Cannot read binary file as text: ".to_owned();
                message.append(display.as_str());
                message.append(". Use view=\"hex\" to inspect its raw bytes.");
                Err(message)
            },
            EncodingDecision::Rejected(rejection) => Err(rejection.message(display.as_str())),
        }
    }

    /// Makes a document of the content, if the file still holds it.
    pub fn finish(self, current: &[u8]) -> (result: Result<TextDocument, String>)
        requires
            self.wf(),
        ensures
            match result {
                Ok(document) => {
                    &&& document.validated() == self.validated()
                    &&& open_error(
                        self.display(),
                        self.raw(),
                        current@,
                        self.label(),
                        Some(self.validated()),
                    ) is None
                    &&& document.opened_from(self.display(), self.raw(), self.label())
                },
                Err(message) => open_error(
                    self.display(),
                    self.raw(),
                    current@,
                    self.label(),
                    Some(self.validated()),
                ) == Some(message@),
            },
    {
        let DocumentDraft { display, raw, validated, label } = self;
        if !same_bytes(current, raw.as_slice()) {
            return Err(concurrent_message(display.as_str()));
        }
        let ghost detected = validated.detected@;
        let decoded = match validated.decode_editable_snapshot(raw.as_slice()) {
            Ok(decoded) => decoded,
            Err(reason) => {
                let mut message = "Cannot safely edit ".to_owned();
                message.append(display.as_str());
                message.append(": ");
                message.append(reason.as_str());
                message.append(". Convert the file to UTF-8 externally and retry.");
                return Err(message);
            },
        };
        let ghost text = decoded.text@;
        let ghost offsets = editable::raw_offsets(
            detected.charset,
            text,
            detected.bom_len as int,
        );
        proof {
            raw_offsets_ascend(detected.charset, text, detected.bom_len as int);
            logical_shape(text, offsets, text.len() as int, raw@.len() as int);
        }
        let view = logical_view(&decoded, Ghost(offsets));
        let ghost logical_raw = logical_offsets(text, offsets, text.len() as int);
        let chars = chars_of(view.logical.as_str());
        let trailing_newline = chars.len() > 0 && chars[chars.len() - 1] == '\n';
        proof {
            offset_map_holds_boundaries(view.logical@, logical_raw);
            offset_map_ascends(view.logical@, logical_raw, raw@.len() as int);
            assert(view.logical@.take(view.logical@.len() as int) =~= view.logical@);
        }
        Ok(
            TextDocument {
                display,
                raw,
                validated,
                logical: view.logical,
                boundaries: view.raw_boundaries,
                eol: view.eol,
                trailing_newline,
            },
        )
    }
}

/// A frozen content with the views that a safe edit needs.
#[derive(Clone, Debug)]
pub struct TextDocument {
    display: String,
    raw: Vec<u8>,
    validated: ValidatedFileEncoding,
    logical: String,
    boundaries: Vec<Option<usize>>,
    eol: EolStyle,
    trailing_newline: bool,
}

impl TextDocument {
    /// The path as it is shown.
    pub closed spec fn display(&self) -> Seq<char> {
        self.display@
    }

    /// The frozen bytes.
    pub closed spec fn raw(&self) -> Seq<u8> {
        self.raw@
    }

    /// How the bytes were validated.
    pub closed spec fn validated(&self) -> ValidatedFileEncoding {
        self.validated
    }

    /// The text with line feeds only.
    pub closed spec fn logical(&self) -> Seq<char> {
        self.logical@
    }

    /// For every UTF-8 offset of the logical text the raw offset, `None` inside a character.
    pub closed spec fn map(&self) -> Seq<Option<int>> {
        editable::offsets_view(self.boundaries@)
    }

    /// The line end of inserted line breaks.
    pub closed spec fn eol(&self) -> EolStyle {
        self.eol
    }

    /// Whether the views fit together: the offsets ascend within the raw bytes and cover every
    /// character boundary of the logical text.
    pub open spec fn wf(&self) -> bool {
        let map = self.map();
        &&& map.len() == encode_utf8(self.logical()).len() + 1
        &&& map_ascends(map, self.raw().len() as int)
        &&& forall|k: int|
            0 <= k <= self.logical().len() ==> {
                &&& encode_utf8(#[trigger] self.logical().take(k)).len() < map.len()
                &&& map[encode_utf8(self.logical().take(k)).len() as int] is Some
            }
        &&& map[encode_utf8(self.logical()).len() as int] == Some(self.raw().len() as int)
        &&& self.trailing_newline() == stats::ends_with_newline(self.logical())
    }

    /// Whether the logical text ends with a line feed.
    pub closed spec fn trailing_newline(&self) -> bool {
        self.trailing_newline
    }

    /// Whether this is what a content becomes, opened under a label.
    pub open spec fn opened_from(
        &self,
        display: Seq<char>,
        raw: Seq<u8>,
        label: Option<Seq<char>>,
    ) -> bool {
        let validated = self.validated();
        let detected = validated.detected@;
        &&& pipeline::classify(raw, label) == EncodingDecision::Text(validated)@
        &&& self.wf()
        &&& self.display() == display
        &&& self.raw() == raw
        &&& pipeline::decoded_content(raw, detected) matches Some(text)
        &&& self.logical() == logical_text(text)
        &&& self.map() == editable::offset_map(
            logical_text(text),
            logical_offsets(
                text,
                editable::raw_offsets(detected.charset, text, detected.bom_len as int),
                text.len() as int,
            ),
        )
        &&& self.eol() == dominant_eol(text)
    }

    /// Opens a content that was read twice, before and after its validation.
    pub fn open(display: String, raw: Vec<u8>, current: &[u8], explicit: Option<&str>) -> (result:
        Result<TextDocument, String>)
        ensures
            match result {
                Ok(document) => {
                    &&& open_error(
                        display@,
                        raw@,
                        current@,
                        pipeline::str_view(explicit),
                        Some(document.validated()),
                    ) is None
                    &&& document.opened_from(display@, raw@, pipeline::str_view(explicit))
                },
                Err(message) => exists|validated: Option<ValidatedFileEncoding>|
                    {
                        &&& validated matches Some(validated) ==> pipeline::classify(
                            raw@,
                            pipeline::str_view(explicit),
                        ) == EncodingDecision::Text(validated)@
                        &&& #[trigger] open_error(
                            display@,
                            raw@,
                            current@,
                            pipeline::str_view(explicit),
                            validated,
                        ) == Some(message@)
                    },
            },
    {
        let ghost shown = pipeline::str_view(explicit);
        match DocumentDraft::begin(display, raw, explicit) {
            Ok(draft) => draft.finish(current),
            Err(message) => {
                assert(open_error(display@, raw@, current@, shown, None) == Some(message@));
                Err(message)
            },
        }
    }

    /// The path as it is shown.
    pub fn display_path(&self) -> (path: &str)
        ensures
            path@ == self.display(),
    {
        self.display.as_str()
    }

    /// The frozen bytes.
    pub fn original_bytes(&self) -> (bytes: &[u8])
        ensures
            bytes@ == self.raw(),
    {
        self.raw.as_slice()
    }

    /// The text with line feeds only.
    pub fn logical_text(&self) -> (text: &str)
        ensures
            text@ == self.logical(),
    {
        self.logical.as_str()
    }

    /// Whether the logical text ends with a line feed.
    pub fn has_trailing_newline(&self) -> (result: bool)
        ensures
            result == self.trailing_newline(),
    {
        self.trailing_newline
    }

    /// The canonical name of the encoding.
    pub fn encoding_label(&self) -> (label: &'static str)
        ensures
            label@ == self.validated().label(),
    {
        self.validated.encoding_label()
    }

    /// The revision of the frozen bytes.
    pub fn revision(&self) -> (revision: String)
        ensures
            revision@ == digest::hex(digest::sha256(self.raw())),
    {
        revision_of(self.raw.as_slice())
    }

    /// Whether a write may go ahead: the target still holds the frozen bytes, under one name.
    pub fn check_commit(&self, target: &str, current: &[u8], hard_links: u64) -> (result: Result<
        (),
        String,
    >)
        ensures
            match result {
                Ok(()) => current@ == self.raw() && hard_links <= 1,
                Err(message) => if current@ != self.raw() {
                    message@ == concurrent_message_spec(self.display())
                } else {
                    &&& hard_links > 1
                    &&& message@ == "Cannot safely edit "@ + target@
                        + ": it has multiple hard links, and an atomic replace would break them. Duplicate the file to a new path, or remove the extra links first."@
                },
            },
    {
        if !same_bytes(current, self.raw.as_slice()) {
            return Err(concurrent_message(self.display.as_str()));
        }
        if hard_links > 1 {
            return Err(hard_link_message(target));
        }
        Ok(())
    }

    /// What `text` is encoded to in this document.
    pub open spec fn target_bytes(&self, text: Seq<char>) -> Option<Seq<u8>> {
        editable::fragment_bytes(self.validated().detected@.charset, with_eol(text, self.eol()))
    }

    /// The message about text that the encoding cannot hold.
    pub open spec fn unencodable(&self) -> Seq<char> {
        "Cannot write "@ + self.display() + ": the replacement text cannot be encoded as "@
            + self.validated().label()
            + ". Convert the file to UTF-8 externally or use replacement text representable in that encoding."@
    }

    /// Encodes inserted text with the line ends of this document.
    pub fn encode_for_target(&self, text: &str) -> (result: Result<Vec<u8>, String>)
        ensures
            match result {
                Ok(bytes) => self.target_bytes(text@) == Some(bytes@),
                Err(message) => self.target_bytes(text@) is None && message@ == self.unencodable(),
            },
    {
        let adapted = write_eol(text, self.eol);
        match encode_fragment(self.validated.detected.kind, adapted.as_str()) {
            Some(bytes) => Ok(bytes),
            None => {
                let mut message = "Cannot write ".to_owned();
                message.append(self.display.as_str());
                message.append(": the replacement text cannot be encoded as ");
                message.append(self.validated.encoding_label());
                message.append(
                    ". Convert the file to UTF-8 externally or use replacement text representable in that encoding.",
                );
                Err(message)
            },
        }
    }

    /// The number of logical offsets, the one past the end included.
    pub fn offset_slots(&self) -> (slots: usize)
        ensures
            slots == self.map().len(),
    {
        self.boundaries.len()
    }

    /// The raw offset of a logical offset; `None` where it is no character boundary.
    pub open spec fn raw_at(&self, offset: int) -> Option<int> {
        if 0 <= offset < self.map().len() {
            self.map()[offset]
        } else {
            None
        }
    }

    /// The raw offset of a logical offset.
    pub fn raw_offset(&self, offset: usize) -> (result: Result<usize, String>)
        ensures
            match result {
                Ok(raw) => self.raw_at(offset as int) == Some(raw as int),
                Err(message) => {
                    &&& self.raw_at(offset as int) is None
                    &&& message@
                        == "Internal edit failure: a logical range did not end on a character boundary."@
                },
            },
    {
        if offset < self.boundaries.len() {
            assert(self.map()[offset as int] == match self.boundaries@[offset as int] {
                Some(raw) => Some(raw as int),
                None => None,
            });
            if let Some(raw) = self.boundaries[offset] {
                return Ok(raw);
            }
        }
        Err(
            "Internal edit failure: a logical range did not end on a character boundary.".to_owned(),
        )
    }
}

} // verus!
