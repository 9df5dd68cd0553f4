//! The checks that a legacy decoding must pass: no control or noncharacter, and re-encoding
//! must give back every source byte.

use crate::encoding::codec;
use crate::encoding::codec::{encode_chunk, new_encoder, DECODE_CHUNK_BYTES, ENCODE_CHUNK_CHARS};
use crate::encoding::decoder;
use crate::encoding::decoder::{decode_whole, Charset, EncodingKind};
use crate::encoding::stats;
use crate::text::{chars_of, same_bytes, string_of};
use vstd::prelude::*;
use vstd::slice::slice_subrange;

verus! {

/// Whether a character never stands in trusted legacy text: a control other than tab, line
/// feed and carriage return, a C1 control, or a Unicode noncharacter.
pub open spec fn is_disallowed(character: char) -> bool {
    let value = character as u32;
    ||| value <= 0x1F && character != '\t' && character != '\n' && character != '\r'
    ||| 0x80 <= value <= 0x9F
    ||| 0xFDD0 <= value <= 0xFDEF
    ||| value % 0x1_0000 == 0xFFFE
    ||| value % 0x1_0000 == 0xFFFF
}

/// Whether such a character occurs.
pub open spec fn has_disallowed(text: Seq<char>) -> bool {
    exists|i: int| 0 <= i < text.len() && is_disallowed(#[trigger] text[i])
}

/// Whether a character never stands in trusted legacy text.
pub fn is_disallowed_legacy_character(character: char) -> (disallowed: bool)
    ensures
        disallowed == is_disallowed(character),
{
    let value: u32 = character as u32;
    (value <= 0x1F && character != '\t' && character != '\n' && character != '\r')
        || (0x80 <= value && value <= 0x9F) || (0xFDD0 <= value && value <= 0xFDEF) || value
        % 0x1_0000 == 0xFFFE || value % 0x1_0000 == 0xFFFF
}

/// Whether such a character occurs in `text`.
pub fn any_disallowed(text: &str) -> (found: bool)
    ensures
        found == has_disallowed(text@),
{
    let chars = chars_of(text);
    let mut index: usize = 0;
    while index < chars.len()
        invariant
            index <= chars.len(),
            chars@ == text@,
            forall|i: int| 0 <= i < index ==> !is_disallowed(#[trigger] chars@[i]),
        decreases chars.len() - index,
    {
        if is_disallowed_legacy_character(chars[index]) {
            assert(is_disallowed(text@[index as int]));
            return true;
        }
        index += 1;
    }
    false
}

/// The bytes of `text` in the named encoding, `None` when it cannot hold the text or the name
/// is unknown.
pub open spec fn legacy_bytes(name: Seq<char>, text: Seq<char>) -> Option<Seq<u8>> {
    if codec::label_encoding(name) is Some {
        codec::encoded_whole(name, text)
    } else {
        None
    }
}

/// Whether `bytes` are trusted text in the named encoding: they decode, to allowed characters
/// alone, and the text encodes to the same bytes.
pub open spec fn hard_valid(name: Seq<char>, bytes: Seq<u8>) -> bool {
    &&& decoder::whole_text(Charset::Legacy(name), bytes) matches Some(text)
    &&& !has_disallowed(text)
    &&& legacy_bytes(name, text) == Some(bytes)
}

/// Encodes a whole text in the named encoding.
pub fn encode_whole(name: &str, text: &str) -> (result: Option<Vec<u8>>)
    ensures
        match result {
            Some(bytes) => legacy_bytes(name@, text@) == Some(bytes@),
            None => legacy_bytes(name@, text@) is None,
        },
{
    let mut encoder = match new_encoder(name) {
        Some(encoder) => encoder,
        None => {
            return None;
        },
    };
    let chars = chars_of(text);
    let mut bytes: Vec<u8> = Vec::new();
    let mut start: usize = 0;
    assert(chars@.take(0) =~= Seq::<char>::empty());
    while chars.len() - start > ENCODE_CHUNK_CHARS
        invariant
            start <= chars.len(),
            chars@ == text@,
            codec::label_encoding(name@) is Some,
            codec::encoder_encoding(encoder) == name@,
            codec::encoder_input(encoder) == chars@.take(start as int),
            codec::encoded_prefix(name@, chars@.take(start as int)) == Some(bytes@),
        decreases chars.len() - start,
    {
        let piece = string_of(slice_subrange(chars.as_slice(), start, start + ENCODE_CHUNK_CHARS));
        proof {
            assert(chars@.take(start as int) + piece@ =~= chars@.take(start + ENCODE_CHUNK_CHARS));
            assert(chars@.take(start + ENCODE_CHUNK_CHARS) + chars@.skip(
                start + ENCODE_CHUNK_CHARS,
            ) =~= chars@);
        }
        match encode_chunk(&mut encoder, piece.as_str(), false) {
            Some(mut added) => {
                bytes.append(&mut added);
            },
            None => {
                return None;
            },
        }
        start += ENCODE_CHUNK_CHARS;
    }
    let piece = string_of(slice_subrange(chars.as_slice(), start, chars.len()));
    proof {
        assert(chars@.take(start as int) + piece@ =~= chars@);
        assert(chars@ + Seq::<char>::empty() =~= chars@);
    }
    match encode_chunk(&mut encoder, piece.as_str(), true) {
        Some(mut added) => {
            bytes.append(&mut added);
            Some(bytes)
        },
        None => None,
    }
}

/// Decodes, filters and re-encodes one byte sequence.
pub fn hard_validate(name: &'static str, bytes: &[u8]) -> (valid: bool)
    ensures
        valid == hard_valid(name@, bytes@),
{
    let text = match decode_whole(EncodingKind::Legacy(name), bytes) {
        Some(text) => text,
        None => {
            return false;
        },
    };
    if any_disallowed(text.as_str()) {
        return false;
    }
    match encode_whole(name, text.as_str()) {
        Some(encoded) => same_bytes(encoded.as_slice(), bytes),
        None => false,
    }
}

/// A buffer and the length of its consumed front, once that front was dropped where it is worth
/// the copy: when nothing else is left, or when it is a whole chunk and at least half of the buffer.
spec fn compacted(buffer: Seq<u8>, start: int) -> (Seq<u8>, int) {
    if start == buffer.len() {
        (Seq::empty(), 0)
    } else if start >= DECODE_CHUNK_BYTES && start >= buffer.len() as int / 2 {
        (buffer.skip(start), 0)
    } else {
        (buffer, start)
    }
}

/// Drops the consumed front of a buffer once it is worth the copy.
fn compact_buffer(buffer: &mut Vec<u8>, start: &mut usize)
    requires
        *old(start) <= old(buffer).len(),
    ensures
        (final(buffer)@, *final(start) as int) == compacted(old(buffer)@, *old(start) as int),
        *final(start) <= final(buffer).len(),
        final(buffer)@.skip(*final(start) as int) == old(buffer)@.skip(*old(start) as int),
        *final(start) <= *old(start),
{
    if *start == buffer.len() {
        assert(buffer@.skip(*start as int) =~= Seq::<u8>::empty());
        buffer.clear();
        *start = 0;
        assert(buffer@.skip(0) =~= Seq::<u8>::empty());
    } else if *start >= DECODE_CHUNK_BYTES && *start >= buffer.len() / 2 {
        let ghost before = buffer@;
        let from = *start;
        let size = buffer.len();
        let kept = size - from;
        let mut index: usize = 0;
        while index < kept
            invariant
                index <= kept,
                0 < from <= size,
                kept == size - from,
                size == before.len(),
                buffer@.len() == before.len(),
                forall|i: int| 0 <= i < index ==> #[trigger] buffer@[i] == before[from + i],
                forall|i: int| index <= i < before.len() ==> #[trigger] buffer@[i] == before[i],
            decreases kept - index,
        {
            let byte: u8 = buffer[from + index];
            buffer.set(index, byte);
            index += 1;
        }
        buffer.truncate(kept);
        assert(buffer@ =~= before.skip(from as int));
        assert(buffer@.skip(0) =~= before.skip(from as int));
        *start = 0;
    }
}

/// How often a buffer grows from room for `room` bytes until it has room for `need`: first to a
/// whole chunk, then at least to twice what it had.
pub open spec fn growths(need: nat, room: nat) -> nat
    decreases
            if need > room {
                (need - room) as nat
            } else {
                0
            },
{
    if room >= need {
        0
    } else if room < DECODE_CHUNK_BYTES {
        1 + growths(need, DECODE_CHUNK_BYTES as nat)
    } else {
        1 + growths(need, 2 * room)
    }
}

proof fn more_room_grows_less(need: nat, room: nat, more: nat)
    requires
        room <= more,
    ensures
        growths(need, more) <= growths(need, room),
    decreases
            if need > room {
                (need - room) as nat
            } else {
                0
            },
{
    if more < need {
        let next = if room < DECODE_CHUNK_BYTES {
            DECODE_CHUNK_BYTES as nat
        } else {
            2 * room
        };
        let later = if more < DECODE_CHUNK_BYTES {
            DECODE_CHUNK_BYTES as nat
        } else {
            2 * more
        };
        more_room_grows_less(need, next, later);
    }
}

/// The room that a buffer was given.
#[derive(Clone, Copy, Debug)]
struct BufferRoom {
    bytes: usize,
    /// How often it grew.
    growths: usize,
}

impl BufferRoom {
    /// Whether the buffer grew no more often than holding so many bytes takes.
    spec fn frugal(&self, held: nat) -> bool {
        forall|need: nat|
            held <= need <= usize::MAX ==> self.growths + #[trigger] growths(
                need,
                self.bytes as nat,
            ) <= growths(need, 0)
    }

    fn new() -> (room: Self)
        ensures
            room.bytes == 0,
            room.growths == 0,
            room.frugal(0),
    {
        BufferRoom { bytes: 0, growths: 0 }
    }

    /// Gives a buffer room for more bytes, where it has too little.
    fn make(&mut self, buffer: &mut Vec<u8>, additional: usize, held: Ghost<nat>)
        requires
            old(self).frugal(held@),
            old(buffer)@.len() <= held@,
        ensures
            final(buffer)@ == old(buffer)@,
            final(self).frugal(held@ + additional as nat),
            old(buffer)@.len() + additional <= old(self).bytes ==> *final(self) == *old(self),
            old(self).bytes < old(buffer)@.len() + additional <= usize::MAX ==> final(self).bytes
                >= old(buffer)@.len() + additional && final(self).growths == if old(self).growths
                < usize::MAX {
                old(self).growths + 1
            } else {
                usize::MAX as int
            },
    {
        let ghost before = *self;
        let wanted = buffer.len().saturating_add(additional);
        if wanted <= self.bytes {
            return;
        }
        let doubled: usize = if self.bytes < DECODE_CHUNK_BYTES {
            DECODE_CHUNK_BYTES
        } else if self.bytes > usize::MAX / 2 {
            usize::MAX
        } else {
            2 * self.bytes
        };
        self.bytes = if doubled < wanted {
            wanted
        } else {
            doubled
        };
        self.growths = self.growths.saturating_add(1);
        let _ = buffer.try_reserve(self.bytes - buffer.len());
        proof {
            assert forall|need: nat|
                held@ + additional as nat <= need <= usize::MAX implies self.growths
                + #[trigger] growths(need, self.bytes as nat) <= growths(need, 0) by {
                assert(before.growths + growths(need, before.bytes as nat) <= growths(need, 0));
                assert(need > before.bytes);
                let next = if before.bytes < DECODE_CHUNK_BYTES {
                    DECODE_CHUNK_BYTES as nat
                } else {
                    (2 * before.bytes) as nat
                };
                assert(growths(need, before.bytes as nat) == 1 + growths(need, next));
                if self.bytes < next {
                    assert(growths(need, self.bytes as nat) == 0);
                } else {
                    more_room_grows_less(need, next, self.bytes as nat);
                }
            }
        }
    }
}

/// Re-encodes decoded text as it arrives and compares the outcome with every source byte.
pub struct RoundTripVerifier {
    encoder: Option<encoding_rs::Encoder>,
    encoded: Vec<u8>,
    expected: Vec<u8>,
    encoded_start: usize,
    expected_start: usize,
    encoded_room: BufferRoom,
    expected_room: BufferRoom,
    name: Ghost<Seq<char>>,
    text: Ghost<Seq<char>>,
    source: Ghost<Seq<u8>>,
    compared: Ghost<int>,
}

spec fn conflict(left: Seq<u8>, right: Seq<u8>) -> bool {
    exists|i: int| 0 <= i < left.len() && i < right.len() && #[trigger] left[i] != right[i]
}

proof fn conflict_is_final(left: Seq<u8>, right: Seq<u8>, all: Seq<u8>, more: Seq<u8>)
    requires
        conflict(left, right),
        left.is_prefix_of(all),
    ensures
        all != right + more,
{
    let i = choose|i: int|
        0 <= i < left.len() && i < right.len() && #[trigger] left[i] != right[i];
    assert(all.subrange(0, left.len() as int)[i] == all[i]);
    assert((right + more)[i] == right[i]);
}

impl RoundTripVerifier {
    /// The encoding checked.
    pub closed spec fn name(&self) -> Seq<char> {
        self.name@
    }

    /// The text pushed so far.
    pub closed spec fn text(&self) -> Seq<char> {
        self.text@
    }

    /// The source bytes observed so far.
    pub closed spec fn source(&self) -> Seq<u8> {
        self.source@
    }

    /// How often the buffers grew.
    pub closed spec fn allocations(&self) -> nat {
        (self.encoded_room.growths + self.expected_room.growths) as nat
    }

    spec fn encoded_total(&self) -> Seq<u8> {
        codec::encoded_prefix(self.name@, self.text@)->Some_0
    }

    spec fn buffers_ok(&self, total: Seq<u8>) -> bool {
        &&& self.encoded_start <= self.encoded.len()
        &&& self.expected_start <= self.expected.len()
        &&& 0 <= self.compared@ <= total.len()
        &&& self.compared@ <= self.source@.len()
        &&& self.encoded@.skip(self.encoded_start as int) == total.skip(self.compared@)
        &&& self.expected@.skip(self.expected_start as int) == self.source@.skip(self.compared@)
        &&& total.take(self.compared@) == self.source@.take(self.compared@)
        &&& self.encoded@.len() <= total.len()
        &&& self.expected@.len() <= self.source@.len()
        &&& self.encoded_room.frugal(total.len())
        &&& self.expected_room.frugal(self.source@.len())
    }

    /// Whether the verifier can go on.
    pub closed spec fn wf(&self) -> bool {
        match self.encoder {
            Some(encoder) => {
                &&& codec::label_encoding(self.name@) is Some
                &&& codec::encoder_encoding(encoder) == self.name@
                &&& codec::encoder_input(encoder) == self.text@
                &&& codec::encoded_prefix(self.name@, self.text@) is Some
                &&& self.buffers_ok(self.encoded_total())
            },
            None => {
                &&& codec::label_encoding(self.name@) is None
                &&& self.expected_start <= self.expected.len()
                &&& self.expected@.len() <= self.source@.len()
                &&& self.expected_room.frugal(self.source@.len())
            },
        }
    }

    /// A verifier that has seen nothing.
    pub fn new(name: &str) -> (verifier: Self)
        ensures
            verifier.wf(),
            verifier.name() == name@,
            verifier.text() == Seq::<char>::empty(),
            verifier.source() == Seq::<u8>::empty(),
            verifier.allocations() == 0,
    {
        proof {
            assert(Seq::<u8>::empty().skip(0) =~= Seq::<u8>::empty());
            assert(Seq::<u8>::empty().take(0) =~= Seq::<u8>::empty());
        }
        RoundTripVerifier {
            encoder: new_encoder(name),
            encoded: Vec::new(),
            expected: Vec::new(),
            encoded_start: 0,
            expected_start: 0,
            encoded_room: BufferRoom::new(),
            expected_room: BufferRoom::new(),
            name: Ghost(name@),
            text: Ghost(Seq::empty()),
            source: Ghost(Seq::empty()),
            compared: Ghost(0),
        }
    }

    /// How often the buffers grew.
    pub fn allocation_count(&self) -> (count: usize)
        ensures
            count == stats::saturated(self.allocations()),
    {
        self.encoded_room.growths.saturating_add(self.expected_room.growths)
    }

    /// Takes note of source bytes that the text to come must reproduce.
    pub fn observe_source(&mut self, bytes: &[u8])
        requires
            old(self).wf(),
        ensures
            final(self).wf(),
            final(self).name() == old(self).name(),
            final(self).text() == old(self).text(),
            final(self).source() == old(self).source() + bytes@,
    {
        let ghost before = *self;
        compact_buffer(&mut self.expected, &mut self.expected_start);
        let ghost held = self.source@.len();
        self.expected_room.make(&mut self.expected, bytes.len(), Ghost(held));
        self.expected.extend_from_slice(bytes);
        self.source = Ghost(self.source@ + bytes@);
        proof {
            if before.encoder is Some {
                let at = before.compared@;
                assert(self.expected@.skip(self.expected_start as int) =~= before.source@.skip(at)
                    + bytes@);
                assert(self.source@.skip(at) =~= before.source@.skip(at) + bytes@);
                assert(self.source@.take(at) =~= before.source@.take(at));
            }
        }
    }

    fn compare_available(&mut self, total: Ghost<Seq<u8>>) -> (agree: bool)
        requires
            old(self).buffers_ok(total@),
        ensures
            final(self).encoder == old(self).encoder,
            final(self).name@ == old(self).name@,
            final(self).text@ == old(self).text@,
            final(self).source@ == old(self).source@,
            final(self).encoded_room == old(self).encoded_room,
            final(self).expected_room == old(self).expected_room,
            agree ==> final(self).buffers_ok(total@) && (final(self).compared@ == total@.len()
                || final(self).compared@ == final(self).source@.len()),
            !agree ==> conflict(total@, old(self).source@),
    {
        let ghost at = self.compared@;
        let ghost source = self.source@;
        let encoded_left: usize = self.encoded.len() - self.encoded_start;
        let expected_left: usize = self.expected.len() - self.expected_start;
        let count: usize = if encoded_left < expected_left {
            encoded_left
        } else {
            expected_left
        };
        let mut index: usize = 0;
        proof {
            assert(self.encoded@.skip(self.encoded_start as int).len() == total@.skip(at).len());
            assert(self.expected@.skip(self.expected_start as int).len() == source.skip(at).len());
        }
        while index < count
            invariant
                index <= count,
                count <= self.encoded.len() - self.encoded_start,
                count <= self.expected.len() - self.expected_start,
                at == self.compared@,
                source == self.source@,
                self.buffers_ok(total@),
                at + count <= total@.len(),
                at + count <= source.len(),
                *self == *old(self),
                forall|i: int| 0 <= i < index ==> #[trigger] total@[at + i] == source[at + i],
            decreases count - index,
        {
            proof {
                assert(self.encoded@[self.encoded_start + index] == self.encoded@.skip(
                    self.encoded_start as int,
                )[index as int]);
                assert(total@.skip(at)[index as int] == total@[at + index]);
                assert(self.expected@[self.expected_start + index] == self.expected@.skip(
                    self.expected_start as int,
                )[index as int]);
                assert(source.skip(at)[index as int] == source[at + index]);
            }
            if self.encoded[self.encoded_start + index] != self.expected[self.expected_start
                + index] {
                assert(total@[at + index] != source[at + index]);
                return false;
            }
            index += 1;
        }
        let ghost before = *self;
        self.encoded_start = self.encoded_start + count;
        self.expected_start = self.expected_start + count;
        self.compared = Ghost(at + count);
        proof {
            assert(self.encoded@.skip(self.encoded_start as int) =~= before.encoded@.skip(
                before.encoded_start as int,
            ).skip(count as int));
            assert(total@.skip(at + count) =~= total@.skip(at).skip(count as int));
            assert(self.expected@.skip(self.expected_start as int) =~= before.expected@.skip(
                before.expected_start as int,
            ).skip(count as int));
            assert(source.skip(at + count) =~= source.skip(at).skip(count as int));
            assert(total@.take(at + count) =~= source.take(at + count)) by {
                assert forall|i: int| 0 <= i < at + count implies total@[i] == source[i] by {
                    if i < at {
                        assert(total@.take(at)[i] == source.take(at)[i]);
                    } else {
                        assert(total@[at + (i - at)] == source[at + (i - at)]);
                    }
                }
            }
        }
        true
    }

    fn push_piece(&mut self, piece: &str, last: bool) -> (agree: bool)
        requires
            old(self).wf(),
            piece@.len() <= ENCODE_CHUNK_CHARS,
        ensures
            final(self).name() == old(self).name(),
            final(self).source() == old(self).source(),
            !last && agree ==> final(self).wf() && final(self).text() == old(self).text() + piece@,
            !last && !agree ==> forall|more_text: Seq<char>, more_source: Seq<u8>|
                #[trigger] legacy_bytes(old(self).name(), old(self).text() + piece@ + more_text)
                    != Some(#[trigger] (old(self).source() + more_source)),
            last ==> agree == (legacy_bytes(old(self).name(), old(self).text() + piece@) == Some(
                old(self).source(),
            )),
            last && agree && old(self).source().len() <= usize::MAX ==> final(self).allocations()
                <= 2 * growths(old(self).source().len(), 0),
    {
        let ghost before = *self;
        let ghost name = self.name@;
        let ghost text = self.text@;
        let ghost source = self.source@;
        let mut encoder = match self.encoder.take() {
            Some(encoder) => encoder,
            None => {
                return false;
            },
        };
        let ghost total = codec::encoded_prefix(name, text)->Some_0;
        let added = encode_chunk(&mut encoder, piece, last);
        match added {
            None => {
                self.encoder = Some(encoder);
                proof {
                    assert(text + piece@ + Seq::<char>::empty() =~= text + piece@);
                }
                false
            },
            Some(mut bytes) => {
                let ghost extended = total + bytes@;
                compact_buffer(&mut self.encoded, &mut self.encoded_start);
                self.encoded_room.make(&mut self.encoded, bytes.len(), Ghost(total.len()));
                self.encoded.append(&mut bytes);
                self.text = Ghost(text + piece@);
                self.encoder = Some(encoder);
                proof {
                    let at = before.compared@;
                    assert(self.encoded@.skip(self.encoded_start as int) =~= total.skip(at) + (
                    extended.skip(total.len() as int)));
                    assert(extended.skip(at) =~= total.skip(at) + extended.skip(
                        total.len() as int,
                    ));
                    assert(extended.take(at) =~= total.take(at));
                    assert(self.buffers_ok(extended));
                }
                let ghost middle = *self;
                let agree = self.compare_available(Ghost(extended));
                proof {
                    if !agree {
                        assert forall|more_text: Seq<char>, more_source: Seq<u8>|
                            !last implies #[trigger] legacy_bytes(name, text + piece@ + more_text)
                            != Some(#[trigger] (source + more_source)) by {
                            if codec::encoded_whole(name, text + piece@ + more_text) is Some {
                                conflict_is_final(
                                    extended,
                                    source,
                                    codec::encoded_whole(name, text + piece@ + more_text)->Some_0,
                                    more_source,
                                );
                            }
                        }
                        if last {
                            conflict_is_final(extended, source, extended, Seq::empty());
                            assert(source + Seq::<u8>::empty() =~= source);
                        }
                    } else {
                        let at = self.compared@;
                        assert(extended.take(at) =~= source.take(at));
                        if at == extended.len() && at == source.len() {
                            assert(extended.take(at) =~= extended);
                            assert(source.take(at) =~= source);
                        }
                        assert(self.encoded@.skip(self.encoded_start as int).len()
                            == extended.len() - at);
                        assert(self.expected@.skip(self.expected_start as int).len()
                            == source.len() - at);
                    }
                }
                if !agree {
                    return false;
                }
                if last {
                    proof {
                        let at = self.compared@;
                        if at == extended.len() && at == source.len() && source.len() <= usize::MAX {
                            let encoded_room = self.encoded_room.bytes as nat;
                            let expected_room = self.expected_room.bytes as nat;
                            assert(self.encoded_room.growths + growths(source.len(), encoded_room)
                                <= growths(source.len(), 0));
                            assert(self.expected_room.growths + growths(source.len(), expected_room)
                                <= growths(source.len(), 0));
                        }
                    }
                    return self.encoded_start == self.encoded.len() && self.expected_start
                        == self.expected.len();
                }
                true
            },
        }
    }

    /// Takes the next piece of decoded text. `false` means that no continuation of text and
    /// source can agree any more.
    pub fn push(&mut self, text: &str) -> (agree: bool)
        requires
            old(self).wf(),
        ensures
            final(self).name() == old(self).name(),
            final(self).source() == old(self).source(),
            agree ==> final(self).wf() && final(self).text() == old(self).text() + text@,
            !agree ==> forall|more_text: Seq<char>, more_source: Seq<u8>|
                #[trigger] legacy_bytes(old(self).name(), old(self).text() + text@ + more_text)
                    != Some(#[trigger] (old(self).source() + more_source)),
    {
        let chars = chars_of(text);
        let mut start: usize = 0;
        assert(self.text() + chars@.take(0) =~= self.text());
        while start < chars.len()
            invariant
                start <= chars.len(),
                chars@ == text@,
                self.wf(),
                self.name() == old(self).name(),
                self.source() == old(self).source(),
                self.text() == old(self).text() + chars@.take(start as int),
            decreases chars.len() - start,
        {
            let end: usize = if chars.len() - start > ENCODE_CHUNK_CHARS {
                start + ENCODE_CHUNK_CHARS
            } else {
                chars.len()
            };
            let piece = string_of(slice_subrange(chars.as_slice(), start, end));
            let ghost here = self.text();
            let ghost rest = chars@.skip(end as int);
            let agree = self.push_piece(piece.as_str(), false);
            proof {
                assert(here + piece@ =~= old(self).text() + chars@.take(end as int));
                if !agree {
                    assert forall|more_text: Seq<char>, more_source: Seq<u8>|
                        #[trigger] legacy_bytes(
                            old(self).name(),
                            old(self).text() + text@ + more_text,
                        ) != Some(#[trigger] (old(self).source() + more_source)) by {
                        assert(old(self).text() + text@ + more_text =~= here + piece@ + (rest
                            + more_text));
                        assert(legacy_bytes(
                            old(self).name(),
                            here + piece@ + (rest + more_text),
                        ) != Some(old(self).source() + more_source));
                    }
                }
            }
            if !agree {
                return false;
            }
            start = end;
        }
        assert(chars@.take(chars@.len() as int) =~= text@);
        true
    }

    /// Ends the text: whether it encodes to exactly the source.
    pub fn finish(&mut self) -> (agree: bool)
        requires
            old(self).wf(),
        ensures
            agree == (legacy_bytes(old(self).name(), old(self).text()) == Some(
                old(self).source(),
            )),
            agree && old(self).source().len() <= usize::MAX ==> final(self).allocations() <= 2
                * growths(old(self).source().len(), 0),
    {
        let ghost text = self.text();
        proof {
            reveal_strlit("");
            assert(text + ""@ =~= text);
        }
        self.push_piece("", true)
    }
}

} // verus!
