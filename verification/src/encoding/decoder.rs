//! Strict incremental decoding: never a replacement character, and the same text whatever the
//! chunks are.

use crate::encoding::codec::{decode_chunk, new_decoder, DECODE_CHUNK_BYTES};
use crate::encoding::utf8::scan_utf8;
use crate::encoding::{codec, utf8};
use crate::text::utf8_string;
use vstd::prelude::*;
use vstd::slice::{slice_subrange, slice_to_vec};
use vstd::string::*;
use vstd::utf8::*;

verus! {

/// An encoding that content can be in. An outside encoding goes by its canonical name.
#[derive(Clone, Copy, Debug)]
pub enum EncodingKind {
    Utf8,
    Utf16Le,
    Utf16Be,
    Utf32Le,
    Utf32Be,
    Legacy(&'static str),
}

/// The mathematical value of an [`EncodingKind`].
pub enum Charset {
    Utf8,
    Utf16Le,
    Utf16Be,
    Utf32Le,
    Utf32Be,
    Legacy(Seq<char>),
}

impl View for EncodingKind {
    type V = Charset;

    open spec fn view(&self) -> Charset {
        match self {
            EncodingKind::Utf8 => Charset::Utf8,
            EncodingKind::Utf16Le => Charset::Utf16Le,
            EncodingKind::Utf16Be => Charset::Utf16Be,
            EncodingKind::Utf32Le => Charset::Utf32Le,
            EncodingKind::Utf32Be => Charset::Utf32Be,
            EncodingKind::Legacy(name) => Charset::Legacy(name@),
        }
    }
}

impl Charset {
    /// The canonical name.
    pub open spec fn name(self) -> Seq<char> {
        match self {
            Charset::Utf8 => "UTF-8"@,
            Charset::Utf16Le => "UTF-16LE"@,
            Charset::Utf16Be => "UTF-16BE"@,
            Charset::Utf32Le => "UTF-32LE"@,
            Charset::Utf32Be => "UTF-32BE"@,
            Charset::Legacy(name) => name,
        }
    }
}

impl EncodingKind {
    /// The canonical name.
    pub fn name(self) -> (name: &'static str)
        ensures
            name@ == self@.name(),
    {
        match self {
            EncodingKind::Utf8 => "UTF-8",
            EncodingKind::Utf16Le => "UTF-16LE",
            EncodingKind::Utf16Be => "UTF-16BE",
            EncodingKind::Utf32Le => "UTF-32LE",
            EncodingKind::Utf32Be => "UTF-32BE",
            EncodingKind::Legacy(name) => name,
        }
    }
}

/// The number of the code unit at unit position `index` of a UTF-32 stream.
pub open spec fn utf32_unit(bytes: Seq<u8>, little_endian: bool, index: int) -> u32 {
    let at = 4 * index;
    if little_endian {
        (bytes[at] + 0x100 * bytes[at + 1] + 0x1_0000 * bytes[at + 2] + 0x100_0000 * bytes[at
            + 3]) as u32
    } else {
        (bytes[at + 3] + 0x100 * bytes[at + 2] + 0x1_0000 * bytes[at + 1] + 0x100_0000
            * bytes[at]) as u32
    }
}

/// The bytes after the last complete unit.
pub open spec fn utf32_tail(bytes: Seq<u8>) -> Seq<u8> {
    bytes.skip(bytes.len() as int / 4 * 4)
}

/// The text of the complete units, `None` when one of them is no scalar value.
pub open spec fn utf32_text(bytes: Seq<u8>, little_endian: bool) -> Option<Seq<char>> {
    let count = bytes.len() / 4;
    if forall|i: int| 0 <= i < count ==> is_scalar(#[trigger] utf32_unit(bytes, little_endian, i)) {
        Some(Seq::new(count, |i: int| utf32_unit(bytes, little_endian, i) as char))
    } else {
        None
    }
}

/// What the start of a stream decodes to while more may follow; `None` when nothing that
/// follows can make it decode.
pub open spec fn prefix_text(charset: Charset, bytes: Seq<u8>) -> Option<Seq<char>> {
    match charset {
        Charset::Utf8 => if utf8::utf8_run(bytes) is Rejected {
            None
        } else {
            Some(decode_utf8(bytes.take(utf8::utf8_valid_up_to(bytes))))
        },
        Charset::Utf32Le => utf32_text(bytes, true),
        Charset::Utf32Be => utf32_text(bytes, false),
        _ => if codec::label_encoding(charset.name()) is Some {
            codec::decoded_prefix(charset.name(), bytes)
        } else {
            None
        },
    }
}

/// What a complete stream decodes to; `None` when it is not well-formed in that encoding.
pub open spec fn whole_text(charset: Charset, bytes: Seq<u8>) -> Option<Seq<char>> {
    match charset {
        Charset::Utf8 => if valid_utf8(bytes) {
            Some(decode_utf8(bytes))
        } else {
            None
        },
        Charset::Utf32Le => if bytes.len() % 4 == 0 {
            utf32_text(bytes, true)
        } else {
            None
        },
        Charset::Utf32Be => if bytes.len() % 4 == 0 {
            utf32_text(bytes, false)
        } else {
            None
        },
        _ => if codec::label_encoding(charset.name()) is Some {
            codec::decoded_whole(charset.name(), bytes)
        } else {
            None
        },
    }
}

enum DecoderState {
    Utf8 { carry: Vec<u8> },
    Outside { decoder: encoding_rs::Decoder },
    Utf32 { little_endian: bool, carry: Vec<u8> },
    Unknown,
}

/// A strict decoder that is fed a stream chunk by chunk.
pub struct StrictDecoder {
    state: DecoderState,
    charset: Ghost<Charset>,
    fed: Ghost<Seq<u8>>,
    produced: Ghost<Seq<char>>,
}

proof fn utf32_carry(fed: Seq<u8>, input: Seq<u8>, little_endian: bool, carry: Seq<u8>)
    requires
        carry == utf32_tail(fed),
    ensures
        (fed + input).len() / 4 == fed.len() / 4 + (carry + input).len() / 4,
        (fed + input).len() % 4 == (carry + input).len() % 4,
        forall|i: int|
            0 <= i < (carry + input).len() / 4 ==> #[trigger] utf32_unit(
                carry + input,
                little_endian,
                i,
            ) == utf32_unit(fed + input, little_endian, fed.len() / 4 + i),
        forall|i: int|
            0 <= i < fed.len() / 4 ==> #[trigger] utf32_unit(fed + input, little_endian, i)
                == utf32_unit(fed, little_endian, i),
        utf32_tail(carry + input) == utf32_tail(fed + input),
{
    let base = fed.len() / 4 * 4;
    assert(carry.len() == fed.len() - base);
    assert forall|i: int| 0 <= i < (carry + input).len() implies (carry + input)[i] == (fed
        + input)[base + i] by {}
    assert forall|i: int| 0 <= i < (carry + input).len() / 4 implies #[trigger] utf32_unit(
        carry + input,
        little_endian,
        i,
    ) == utf32_unit(fed + input, little_endian, fed.len() / 4 + i) by {
        let at = 4 * i;
        assert(4 * (fed.len() / 4 + i) == base + at);
        assert((carry + input)[at] == (fed + input)[base + at]);
        assert((carry + input)[at + 1] == (fed + input)[base + at + 1]);
        assert((carry + input)[at + 2] == (fed + input)[base + at + 2]);
        assert((carry + input)[at + 3] == (fed + input)[base + at + 3]);
    }
    assert(utf32_tail(carry + input) =~= utf32_tail(fed + input));
}

/// A UTF-32 stream with a unit that is no scalar value stays undecodable.
proof fn utf32_failure_stays(bytes: Seq<u8>, more: Seq<u8>, little_endian: bool)
    requires
        utf32_text(bytes, little_endian) is None,
    ensures
        utf32_text(bytes + more, little_endian) is None,
{
    let bad = choose|i: int|
        0 <= i < bytes.len() / 4 && !is_scalar(#[trigger] utf32_unit(bytes, little_endian, i));
    assert(utf32_unit(bytes + more, little_endian, bad) == utf32_unit(bytes, little_endian, bad));
    assert(bad < (bytes + more).len() / 4);
}

proof fn utf8_prefix_text_starts(bytes: Seq<u8>, more: Seq<u8>)
    requires
        valid_utf8(bytes + more),
    ensures
        decode_utf8(bytes.take(utf8::utf8_valid_up_to(bytes))).is_prefix_of(
            decode_utf8(bytes + more),
        ),
{
    let known = utf8::utf8_valid_up_to(bytes);
    let head = bytes.take(known);
    let rest = bytes.skip(known) + more;
    utf8::utf8_valid_up_to_is_longest(bytes);
    assert(bytes + more =~= head + rest);
    utf8::utf8_after_valid_prefix(head, rest);
    utf8::utf8_boundary_is_validity(rest);
    utf8::utf8_boundary_is_validity(bytes + more);
    utf8::decode_utf8_concat(head, rest);
    assert((decode_utf8(head) + decode_utf8(rest)).subrange(0, decode_utf8(head).len() as int)
        =~= decode_utf8(head));
}

proof fn utf32_prefix_text_starts(bytes: Seq<u8>, more: Seq<u8>, little_endian: bool)
    requires
        utf32_text(bytes, little_endian) is Some,
        utf32_text(bytes + more, little_endian) is Some,
    ensures
        utf32_text(bytes, little_endian)->Some_0.is_prefix_of(
            utf32_text(bytes + more, little_endian)->Some_0,
        ),
{
    let short = utf32_text(bytes, little_endian)->Some_0;
    let long = utf32_text(bytes + more, little_endian)->Some_0;
    assert forall|i: int| 0 <= i < short.len() implies short[i] == long[i] by {
        assert(utf32_unit(bytes + more, little_endian, i) == utf32_unit(bytes, little_endian, i));
    }
    assert(short =~= long.subrange(0, short.len() as int));
}

fn read_unit(bytes: &[u8], at: usize, little_endian: bool) -> (unit: u32)
    requires
        at + 4 <= bytes.len(),
        at % 4 == 0,
    ensures
        unit == utf32_unit(bytes@, little_endian, at as int / 4),
{
    let b0: u32 = bytes[at] as u32;
    let b1: u32 = bytes[at + 1] as u32;
    let b2: u32 = bytes[at + 2] as u32;
    let b3: u32 = bytes[at + 3] as u32;
    if little_endian {
        b0 + 0x100 * b1 + 0x1_0000 * b2 + 0x100_0000 * b3
    } else {
        b3 + 0x100 * b2 + 0x1_0000 * b1 + 0x100_0000 * b0
    }
}

/// Decodes the complete units of a UTF-32 stream.
fn decode_units(bytes: &[u8], little_endian: bool) -> (result: Option<String>)
    ensures
        match result {
            Some(text) => utf32_text(bytes@, little_endian) == Some(text@),
            None => utf32_text(bytes@, little_endian) is None,
        },
{
    let count: usize = bytes.len() / 4;
    let mut text = String::new();
    let mut index: usize = 0;
    while index < count
        invariant
            count == bytes@.len() / 4,
            index <= count,
            text@.len() == index,
            forall|i: int|
                0 <= i < index ==> {
                    &&& is_scalar(#[trigger] utf32_unit(bytes@, little_endian, i))
                    &&& text@[i] == utf32_unit(bytes@, little_endian, i) as char
                },
        decreases count - index,
    {
        assert(4 * index + 4 <= bytes.len());
        let unit: u32 = read_unit(bytes, 4 * index, little_endian);
        match char::from_u32(unit) {
            Some(character) => {
                proof {
                    char_u32_cast(character, unit);
                }
                text.push(character);
            },
            None => {
                return None;
            },
        }
        index += 1;
    }
    assert(text@ =~= utf32_text(bytes@, little_endian)->Some_0);
    Some(text)
}

impl StrictDecoder {
    /// The encoding decoded.
    pub closed spec fn charset(&self) -> Charset {
        self.charset@
    }

    /// Everything fed so far.
    pub closed spec fn fed(&self) -> Seq<u8> {
        self.fed@
    }

    /// Everything decoded so far.
    pub closed spec fn produced(&self) -> Seq<char> {
        self.produced@
    }

    /// Whether the decoder can go on.
    pub closed spec fn wf(&self) -> bool {
        let fed = self.fed@;
        let charset = self.charset@;
        match self.state {
            DecoderState::Utf8 { carry } => {
                &&& charset is Utf8
                &&& !(utf8::utf8_run(fed) is Rejected)
                &&& carry@ == fed.skip(utf8::utf8_valid_up_to(fed))
                &&& prefix_text(charset, fed) == Some(self.produced@)
            },
            DecoderState::Outside { decoder } => {
                &&& charset is Utf16Le || charset is Utf16Be || charset is Legacy
                &&& codec::label_encoding(charset.name()) is Some
                &&& codec::decoder_encoding(decoder) == charset.name()
                &&& codec::decoder_input(decoder) == fed
                &&& prefix_text(charset, fed) == Some(self.produced@)
            },
            DecoderState::Utf32 { little_endian, carry } => {
                &&& charset == if little_endian {
                    Charset::Utf32Le
                } else {
                    Charset::Utf32Be
                }
                &&& carry@ == utf32_tail(fed)
                &&& prefix_text(charset, fed) == Some(self.produced@)
            },
            DecoderState::Unknown => {
                &&& charset is Utf16Le || charset is Utf16Be || charset is Legacy
                &&& codec::label_encoding(charset.name()) is None
            },
        }
    }

    /// A decoder that has been fed nothing.
    pub fn new(kind: EncodingKind) -> (decoder: Self)
        ensures
            decoder.wf(),
            decoder.charset() == kind@,
            decoder.fed() == Seq::<u8>::empty(),
            decoder.produced() == Seq::<char>::empty(),
    {
        let state = match kind {
            EncodingKind::Utf8 => DecoderState::Utf8 { carry: Vec::new() },
            EncodingKind::Utf32Le => DecoderState::Utf32 { little_endian: true, carry: Vec::new() },
            EncodingKind::Utf32Be => DecoderState::Utf32 {
                little_endian: false,
                carry: Vec::new(),
            },
            _ => match new_decoder(kind.name()) {
                Some(decoder) => DecoderState::Outside { decoder },
                None => DecoderState::Unknown,
            },
        };
        proof {
            let empty = Seq::<u8>::empty();
            assert(empty.skip(0) =~= empty);
            assert(empty.take(0) =~= empty);
            assert(valid_utf8(empty));
            assert(decode_utf8(empty) =~= Seq::<char>::empty());
            if kind@ is Utf32Le || kind@ is Utf32Be {
                assert(utf32_text(empty, true)->Some_0 =~= Seq::<char>::empty());
                assert(utf32_text(empty, false)->Some_0 =~= Seq::<char>::empty());
            }
        }
        StrictDecoder {
            state,
            charset: Ghost(kind@),
            fed: Ghost(Seq::empty()),
            produced: Ghost(Seq::empty()),
        }
    }

    /// Decodes one more chunk. The text handed out is what the chunk adds; an error means that
    /// the stream is not well-formed, for every continuation unless this was the last chunk.
    pub fn push(&mut self, input: &[u8], is_last: bool) -> (result: Result<String, ()>)
        requires
            old(self).wf(),
        ensures
            is_last ==> whole_text(old(self).charset(), old(self).fed() + input@) == match result {
                Ok(text) => Some(old(self).produced() + text@),
                Err(_) => None,
            },
            !is_last ==> match result {
                Ok(text) => {
                    &&& prefix_text(old(self).charset(), old(self).fed() + input@) == Some(
                        old(self).produced() + text@,
                    )
                    &&& final(self).wf()
                    &&& final(self).charset() == old(self).charset()
                    &&& final(self).fed() == old(self).fed() + input@
                    &&& final(self).produced() == old(self).produced() + text@
                    &&& forall|more: Seq<u8>|
                        whole_text(
                            old(self).charset(),
                            #[trigger] (old(self).fed() + input@ + more),
                        ) matches Some(all) ==> (old(self).produced() + text@).is_prefix_of(all)
                },
                Err(_) => forall|more: Seq<u8>|
                    {
                        &&& prefix_text(
                            old(self).charset(),
                            #[trigger] (old(self).fed() + input@ + more),
                        ) is None
                        &&& whole_text(old(self).charset(), old(self).fed() + input@ + more) is None
                    },
            },
    {
        let ghost charset = self.charset@;
        let ghost fed = self.fed@;
        let ghost produced = self.produced@;
        let ghost total = fed + input@;
        let decoded = match &mut self.state {
            DecoderState::Utf8 { carry } => Self::push_utf8(carry, input, is_last, Ghost(fed)),
            DecoderState::Outside { decoder } => Self::push_outside(decoder, input, is_last),
            DecoderState::Utf32 { little_endian, carry } => Self::push_utf32(
                carry,
                input,
                is_last,
                *little_endian,
                Ghost(fed),
            ),
            DecoderState::Unknown => None,
        };
        match decoded {
            Some(text) => {
                self.fed = Ghost(total);
                self.produced = Ghost(produced + text@);
                proof {
                    if !is_last {
                        assert forall|more: Seq<u8>|
                            whole_text(charset, #[trigger] (total + more)) is Some implies (produced
                            + text@).is_prefix_of(whole_text(charset, total + more)->Some_0) by {
                            if charset is Utf8 {
                                utf8_prefix_text_starts(total, more);
                            } else if charset is Utf32Le {
                                utf32_prefix_text_starts(total, more, true);
                            } else if charset is Utf32Be {
                                utf32_prefix_text_starts(total, more, false);
                            }
                        }
                    }
                }
                Ok(text)
            },
            None => Err(()),
        }
    }

    fn push_outside(
        decoder: &mut encoding_rs::Decoder,
        input: &[u8],
        is_last: bool,
    ) -> (result: Option<String>)
        requires
            codec::decoded_prefix(
                codec::decoder_encoding(*old(decoder)),
                codec::decoder_input(*old(decoder)),
            ) is Some,
        ensures
            ({
                let name = codec::decoder_encoding(*old(decoder));
                let fed = codec::decoder_input(*old(decoder));
                let before = codec::decoded_prefix(name, fed)->Some_0;
                let total = fed + input@;
                match result {
                    Some(text) => if is_last {
                        codec::decoded_whole(name, total) == Some(before + text@)
                    } else {
                        &&& codec::decoded_prefix(name, total) == Some(before + text@)
                        &&& codec::decoder_encoding(*final(decoder)) == name
                        &&& codec::decoder_input(*final(decoder)) == total
                        &&& forall|more: Seq<u8>|
                            codec::decoded_whole(name, #[trigger] (total + more)) matches Some(all)
                                ==> (before + text@).is_prefix_of(all)
                    },
                    None => if is_last {
                        codec::decoded_whole(name, total) is None
                    } else {
                        forall|more: Seq<u8>|
                            {
                                &&& codec::decoded_prefix(name, #[trigger] (total + more)) is None
                                &&& codec::decoded_whole(name, total + more) is None
                            }
                    },
                }
            }),
    {
        let ghost name = codec::decoder_encoding(*decoder);
        let ghost fed = codec::decoder_input(*decoder);
        let ghost before = codec::decoded_prefix(name, fed)->Some_0;
        let ghost total = fed + input@;
        let mut text = String::new();
        let mut start: usize = 0;
        proof {
            assert(fed + input@.take(0) =~= fed);
            assert(before + text@ =~= before);
        }
        while input.len() - start > DECODE_CHUNK_BYTES
            invariant
                start <= input.len(),
                total == fed + input@,
                name == codec::decoder_encoding(*old(decoder)),
                fed == codec::decoder_input(*old(decoder)),
                before == codec::decoded_prefix(name, fed)->Some_0,
                codec::decoder_encoding(*decoder) == name,
                codec::decoder_input(*decoder) == fed + input@.take(start as int),
                codec::decoded_prefix(name, fed + input@.take(start as int)) == Some(
                    before + text@,
                ),
            decreases input.len() - start,
        {
            let end = start + DECODE_CHUNK_BYTES;
            let chunk = slice_subrange(input, start, end);
            let ghost seen = fed + input@.take(end as int);
            let ghost rest = input@.skip(end as int);
            let ghost known = before + text@;
            proof {
                assert(fed + input@.take(start as int) + chunk@ =~= seen);
                assert(seen + rest =~= total);
                assert forall|more: Seq<u8>| #[trigger] (total + more) == seen + (rest + more) by {
                    assert(total + more =~= seen + (rest + more));
                }
            }
            match decode_chunk(decoder, chunk, false) {
                Some(piece) => {
                    assert(known + piece@ =~= before + (text@ + piece@));
                    text.append(piece.as_str());
                },
                None => {
                    return None;
                },
            }
            start = end;
        }
        let chunk = slice_subrange(input, start, input.len());
        let ghost known = before + text@;
        assert(fed + input@.take(start as int) + chunk@ =~= total);
        match decode_chunk(decoder, chunk, is_last) {
            Some(piece) => {
                assert(known + piece@ =~= before + (text@ + piece@));
                text.append(piece.as_str());
                Some(text)
            },
            None => None,
        }
    }

    fn push_utf8(
        carry: &mut Vec<u8>,
        input: &[u8],
        is_last: bool,
        fed: Ghost<Seq<u8>>,
    ) -> (result: Option<String>)
        requires
            !(utf8::utf8_run(fed@) is Rejected),
            old(carry)@ == fed@.skip(utf8::utf8_valid_up_to(fed@)),
        ensures
            ({
                let before = prefix_text(Charset::Utf8, fed@)->Some_0;
                let total = fed@ + input@;
                match result {
                    Some(text) => if is_last {
                        whole_text(Charset::Utf8, total) == Some(before + text@)
                    } else {
                        &&& prefix_text(Charset::Utf8, total) == Some(before + text@)
                        &&& !(utf8::utf8_run(total) is Rejected)
                        &&& final(carry)@ == total.skip(utf8::utf8_valid_up_to(total))
                    },
                    None => if is_last {
                        whole_text(Charset::Utf8, total) is None
                    } else {
                        forall|more: Seq<u8>|
                            {
                                &&& prefix_text(Charset::Utf8, #[trigger] (total + more)) is None
                                &&& whole_text(Charset::Utf8, total + more) is None
                            }
                    },
                }
            }),
    {
        let ghost total = fed@ + input@;
        let ghost done = fed@.take(utf8::utf8_valid_up_to(fed@));
        let mut joined: Vec<u8> = Vec::new();
        joined.append(carry);
        joined.extend_from_slice(input);
        proof {
            utf8::utf8_valid_up_to_is_longest(fed@);
            assert(joined@ =~= fed@.skip(utf8::utf8_valid_up_to(fed@)) + input@);
            assert(total =~= done + joined@);
            utf8::utf8_after_valid_prefix(done, joined@);
            utf8::utf8_boundary_is_validity(total);
            utf8::utf8_boundary_is_validity(joined@);
            utf8::utf8_valid_up_to_is_longest(joined@);
            utf8::utf8_valid_up_to_is_longest(total);
        }
        let scan = scan_utf8(joined.as_slice());
        if scan.rejected || (is_last && scan.valid_up_to < joined.len()) {
            proof {
                utf8::utf8_rejection_is_final(total);
                assert forall|more: Seq<u8>| utf8::utf8_run(total) is Rejected implies {
                    &&& prefix_text(Charset::Utf8, #[trigger] (total + more)) is None
                    &&& whole_text(Charset::Utf8, total + more) is None
                } by {
                    utf8::run_rejected_concat(total, more);
                    utf8::utf8_boundary_is_validity(total + more);
                }
            }
            return None;
        }
        let tail = slice_to_vec(
            slice_subrange(joined.as_slice(), scan.valid_up_to, joined.len()),
        );
        let head = slice_to_vec(slice_subrange(joined.as_slice(), 0, scan.valid_up_to));
        proof {
            assert(head@ =~= joined@.take(scan.valid_up_to as int));
            utf8::decode_utf8_concat(done, head@);
            assert(done + head@ =~= total.take(utf8::utf8_valid_up_to(total)));
            assert(tail@ =~= total.skip(utf8::utf8_valid_up_to(total)));
            if is_last {
                assert(done + head@ =~= total);
            }
        }
        *carry = tail;
        utf8_string(head)
    }

    fn push_utf32(
        carry: &mut Vec<u8>,
        input: &[u8],
        is_last: bool,
        little_endian: bool,
        fed: Ghost<Seq<u8>>,
    ) -> (result: Option<String>)
        requires
            utf32_text(fed@, little_endian) is Some,
            old(carry)@ == utf32_tail(fed@),
        ensures
            ({
                let before = utf32_text(fed@, little_endian)->Some_0;
                let total = fed@ + input@;
                match result {
                    Some(text) => {
                        &&& utf32_text(total, little_endian) == Some(before + text@)
                        &&& is_last ==> total.len() % 4 == 0
                        &&& !is_last ==> final(carry)@ == utf32_tail(total)
                    },
                    None => if is_last {
                        total.len() % 4 != 0 || utf32_text(total, little_endian) is None
                    } else {
                        forall|more: Seq<u8>|
                            utf32_text(#[trigger] (total + more), little_endian) is None
                    },
                }
            }),
    {
        let ghost total = fed@ + input@;
        let ghost before = utf32_text(fed@, little_endian)->Some_0;
        let ghost old_carry = carry@;
        let mut joined: Vec<u8> = Vec::new();
        joined.append(carry);
        joined.extend_from_slice(input);
        proof {
            assert(joined@ =~= old_carry + input@);
            utf32_carry(fed@, input@, little_endian, old_carry);
        }
        if is_last && joined.len() % 4 != 0 {
            return None;
        }
        let complete: usize = joined.len() / 4 * 4;
        let tail = slice_to_vec(slice_subrange(joined.as_slice(), complete, joined.len()));
        proof {
            assert(tail@ =~= utf32_tail(joined@));
        }
        *carry = tail;
        let decoded = decode_units(joined.as_slice(), little_endian);
        proof {
            let first = fed@.len() / 4;
            match &decoded {
                Some(text) => {
                    assert forall|i: int| 0 <= i < total.len() / 4 implies is_scalar(
                        #[trigger] utf32_unit(total, little_endian, i),
                    ) by {
                        if i < first {
                            assert(is_scalar(utf32_unit(fed@, little_endian, i)));
                        } else {
                            assert(is_scalar(utf32_unit(joined@, little_endian, i - first)));
                        }
                    }
                    assert(utf32_text(total, little_endian)->Some_0 =~= before + text@) by {
                        assert forall|i: int| first <= i < total.len() / 4 implies utf32_unit(
                            total,
                            little_endian,
                            i,
                        ) == utf32_unit(joined@, little_endian, i - first) by {
                            assert(utf32_unit(joined@, little_endian, i - first) == utf32_unit(
                                total,
                                little_endian,
                                first + (i - first),
                            ));
                        }
                    }
                },
                None => {
                    let bad = choose|i: int|
                        0 <= i < joined@.len() / 4 && !is_scalar(
                            #[trigger] utf32_unit(joined@, little_endian, i),
                        );
                    assert(!is_scalar(utf32_unit(total, little_endian, first + bad)));
                    assert(utf32_text(total, little_endian) is None);
                    assert forall|more: Seq<u8>|
                        utf32_text(#[trigger] (total + more), little_endian) is None by {
                        utf32_failure_stays(total, more, little_endian);
                    }
                },
            }
        }
        decoded
    }
}

/// Decodes a whole content in one encoding.
pub fn decode_whole(kind: EncodingKind, content: &[u8]) -> (result: Option<String>)
    ensures
        match result {
            Some(text) => whole_text(kind@, content@) == Some(text@),
            None => whole_text(kind@, content@) is None,
        },
{
    let mut decoder = StrictDecoder::new(kind);
    assert(decoder.fed() + content@ =~= content@);
    match decoder.push(content, true) {
        Ok(text) => {
            assert(Seq::<char>::empty() + text@ =~= text@);
            Some(text)
        },
        Err(_) => None,
    }
}

/// However a UTF-8 stream is cut in two: what the first part leaves undecoded is at most three
/// bytes, and with the bytes of the decoded text it is the first part again. One of the parts is
/// refused exactly when the whole is not well-formed. Otherwise the texts of the parts make up
/// the text of the whole, and nothing stays undecoded.
pub proof fn two_chunks_decode_as_one(first: Seq<u8>, second: Seq<u8>)
    ensures
        ({
            let held = first.skip(utf8::utf8_valid_up_to(first));
            let whole = whole_text(Charset::Utf8, first + second);
            &&& prefix_text(Charset::Utf8, first) is None || whole is None <==> !valid_utf8(
                first + second,
            )
            &&& prefix_text(Charset::Utf8, first) matches Some(text) ==> {
                &&& held.len() <= 3
                &&& encode_utf8(text) + held == first
                &&& whole is Some ==> {
                    &&& valid_utf8(held + second)
                    &&& whole->Some_0 == text + decode_utf8(held + second)
                    &&& encode_utf8(whole->Some_0) == first + second
                }
            }
        }),
{
    let known = utf8::utf8_valid_up_to(first);
    let head = first.take(known);
    let held = first.skip(known);
    utf8::utf8_valid_up_to_is_longest(first);
    assert(head + held =~= first);
    if utf8::utf8_run(first) is Rejected {
        utf8::run_rejected_concat(first, second);
        utf8::utf8_boundary_is_validity(first + second);
    } else {
        utf8::utf8_unfinished_is_short(first);
        decode_utf8_encode_utf8(head);
        if valid_utf8(first + second) {
            assert(first + second =~= head + (held + second));
            utf8::utf8_boundary_is_validity(first + second);
            utf8::utf8_after_valid_prefix(head, held + second);
            utf8::utf8_boundary_is_validity(held + second);
            utf8::decode_utf8_concat(head, held + second);
            decode_utf8_encode_utf8(first + second);
        }
    }
}

} // verus!
