//! Calls into `encoding_rs` and `chardetng`. An encoding is passed by one of its labels, its
//! canonical name among them; what the outside coders compute has a name here, and the contracts
//! say no more of it than their documentation does.

use vstd::prelude::*;

verus! {

/// The largest chunk that one decoding step takes.
pub const DECODE_CHUNK_BYTES: usize = 65536;

/// The most characters that one encoding step takes.
pub const ENCODE_CHUNK_CHARS: usize = 16384;

#[verifier::external_type_specification]
#[verifier::external_body]
pub struct ExDecoder(encoding_rs::Decoder);

#[verifier::external_type_specification]
#[verifier::external_body]
pub struct ExEncoder(encoding_rs::Encoder);

/// The canonical name of the encoding that a WHATWG label selects, `None` for a label that
/// selects none or the replacement encoding.
pub uninterp spec fn label_encoding(label: Seq<char>) -> Option<Seq<char>>;

/// Whether the encoding that a label selects maps each byte to one character.
pub uninterp spec fn single_byte(name: Seq<char>) -> bool;

/// The canonical name of the encoding that the detector nominates for a whole byte stream.
pub uninterp spec fn guessed_encoding(bytes: Seq<u8>) -> Seq<char>;

/// The label that a decoder was made for.
pub uninterp spec fn decoder_encoding(decoder: encoding_rs::Decoder) -> Seq<char>;

/// The bytes that a decoder has consumed.
pub uninterp spec fn decoder_input(decoder: encoding_rs::Decoder) -> Seq<u8>;

/// What the bytes of an unfinished stream decode to, without the incomplete sequence that may
/// stand at their end; `None` when a malformed sequence is among them.
pub uninterp spec fn decoded_prefix(name: Seq<char>, bytes: Seq<u8>) -> Option<Seq<char>>;

/// What the bytes of a finished stream decode to; `None` when a sequence in them is malformed
/// or incomplete.
pub uninterp spec fn decoded_whole(name: Seq<char>, bytes: Seq<u8>) -> Option<Seq<char>>;

/// The label that an encoder was made for.
pub uninterp spec fn encoder_encoding(encoder: encoding_rs::Encoder) -> Seq<char>;

/// The text that an encoder has consumed.
pub uninterp spec fn encoder_input(encoder: encoding_rs::Encoder) -> Seq<char>;

/// The bytes for the text of an unfinished stream; `None` when a character cannot be encoded.
pub uninterp spec fn encoded_prefix(name: Seq<char>, text: Seq<char>) -> Option<Seq<u8>>;

/// The bytes for the text of a finished stream; `None` when a character cannot be encoded.
pub uninterp spec fn encoded_whole(name: Seq<char>, text: Seq<char>) -> Option<Seq<u8>>;

/// `Encoding::for_label_no_replacement`: the canonical name for a label, which is itself a
/// label of the same encoding.
#[verifier::external_body]
pub(crate) fn encoding_for_label(label: &str) -> (result: Option<&'static str>)
    ensures
        match result {
            Some(name) => label_encoding(label@) == Some(name@),
            None => label_encoding(label@) is None,
        },
        result matches Some(name) ==> label_encoding(name@) == Some(name@),
{
    encoding_rs::Encoding::for_label_no_replacement(label.as_bytes()).map(|found| found.name())
}

/// `Encoding::is_single_byte` of the encoding with this label; `false` where no encoding has it.
#[verifier::external_body]
pub(crate) fn is_single_byte(name: &str) -> (result: bool)
    ensures
        result == single_byte(name@),
{
    encoding_rs::Encoding::for_label_no_replacement(name.as_bytes())
        .is_some_and(|found| found.is_single_byte())
}

/// `EncodingDetector::guess` after the whole stream was fed to a new detector that may
/// nominate ISO-2022-JP and may not nominate UTF-8.
#[verifier::external_body]
pub(crate) fn guess_encoding(bytes: &[u8]) -> (name: &'static str)
    ensures
        name@ == guessed_encoding(bytes@),
{
    let mut detector = chardetng::EncodingDetector::new(chardetng::Iso2022JpDetection::Allow);
    detector.feed(bytes, true);
    detector.guess(None, chardetng::Utf8Detection::Deny).name()
}

/// `Encoding::new_decoder_without_bom_handling`: a decoder that has consumed nothing, for any
/// label of an encoding.
#[verifier::external_body]
pub(crate) fn new_decoder(name: &str) -> (result: Option<encoding_rs::Decoder>)
    ensures
        result is Some <==> label_encoding(name@) is Some,
        result matches Some(decoder) ==> {
            &&& decoder_encoding(decoder) == name@
            &&& decoder_input(decoder) == Seq::<u8>::empty()
            &&& decoded_prefix(name@, Seq::<u8>::empty()) == Some(Seq::<char>::empty())
        },
{
    encoding_rs::Encoding::for_label_no_replacement(name.as_bytes()).map(
        |found| found.new_decoder_without_bom_handling(),
    )
}

/// `Decoder::decode_to_string_without_replacement` with the room that
/// `max_utf8_buffer_length_without_replacement` asks for, so that the output cannot be full:
/// the text that this chunk adds, or `None` at a malformed sequence. The text handed out so far
/// is how the text of every longer stream starts. A malformed sequence stays one whatever
/// follows, unless it was only the end of the stream that broke it off. After the last chunk,
/// and after a malformed one, nothing is claimed of the decoder.
#[verifier::external_body]
pub(crate) fn decode_chunk(
    decoder: &mut encoding_rs::Decoder,
    chunk: &[u8],
    last: bool,
) -> (result: Option<String>)
    requires
        chunk@.len() <= DECODE_CHUNK_BYTES,
        decoded_prefix(decoder_encoding(*old(decoder)), decoder_input(*old(decoder))) is Some,
    ensures
        ({
            let name = decoder_encoding(*old(decoder));
            let seen = decoder_input(*old(decoder));
            let before = decoded_prefix(name, seen)->Some_0;
            match result {
                Some(text) => if last {
                    decoded_whole(name, seen + chunk@) == Some(before + text@)
                } else {
                    &&& decoded_prefix(name, seen + chunk@) == Some(before + text@)
                    &&& decoder_encoding(*final(decoder)) == name
                    &&& decoder_input(*final(decoder)) == seen + chunk@
                    &&& forall|more: Seq<u8>|
                        decoded_whole(name, #[trigger] (seen + chunk@ + more)) matches Some(all)
                            ==> (before + text@).is_prefix_of(all)
                },
                None => if last {
                    decoded_whole(name, seen + chunk@) is None
                } else {
                    forall|more: Seq<u8>|
                        {
                            &&& decoded_prefix(name, #[trigger] (seen + chunk@ + more)) is None
                            &&& decoded_whole(name, seen + chunk@ + more) is None
                        }
                },
            }
        }),
{
    let room = decoder.max_utf8_buffer_length_without_replacement(chunk.len()).unwrap().max(4);
    let mut text = String::with_capacity(room);
    match decoder.decode_to_string_without_replacement(chunk, &mut text, last).0 {
        encoding_rs::DecoderResult::InputEmpty => Some(text),
        encoding_rs::DecoderResult::OutputFull => None,
        encoding_rs::DecoderResult::Malformed(_, _) => None,
    }
}

/// `Encoding::new_encoder`: an encoder that has consumed nothing, for any label of an encoding.
#[verifier::external_body]
pub(crate) fn new_encoder(name: &str) -> (result: Option<encoding_rs::Encoder>)
    ensures
        result is Some <==> label_encoding(name@) is Some,
        result matches Some(encoder) ==> {
            &&& encoder_encoding(encoder) == name@
            &&& encoder_input(encoder) == Seq::<char>::empty()
            &&& encoded_prefix(name@, Seq::<char>::empty()) == Some(Seq::<u8>::empty())
        },
{
    encoding_rs::Encoding::for_label_no_replacement(name.as_bytes()).map(
        |found| found.new_encoder(),
    )
}

/// `Encoder::encode_from_utf8_to_vec_without_replacement` with the room that
/// `max_buffer_length_from_utf8_without_replacement` asks for, so that the output cannot be
/// full: the bytes that this chunk adds, or `None` at an unmappable character. The bytes handed
/// out so far are how the bytes of every longer stream start. An unmappable character stays one
/// whatever follows. After the last chunk, and after an unmappable one, nothing is claimed of
/// the encoder.
#[verifier::external_body]
pub(crate) fn encode_chunk(
    encoder: &mut encoding_rs::Encoder,
    chunk: &str,
    last: bool,
) -> (result: Option<Vec<u8>>)
    requires
        chunk@.len() <= ENCODE_CHUNK_CHARS,
        encoded_prefix(encoder_encoding(*old(encoder)), encoder_input(*old(encoder))) is Some,
    ensures
        ({
            let name = encoder_encoding(*old(encoder));
            let seen = encoder_input(*old(encoder));
            let before = encoded_prefix(name, seen)->Some_0;
            match result {
                Some(bytes) => if last {
                    encoded_whole(name, seen + chunk@) == Some(before + bytes@)
                } else {
                    &&& encoded_prefix(name, seen + chunk@) == Some(before + bytes@)
                    &&& encoder_encoding(*final(encoder)) == name
                    &&& encoder_input(*final(encoder)) == seen + chunk@
                    &&& forall|more: Seq<char>|
                        encoded_whole(name, #[trigger] (seen + chunk@ + more)) matches Some(all)
                            ==> (before + bytes@).is_prefix_of(all)
                },
                None => forall|more: Seq<char>|
                    {
                        &&& encoded_prefix(name, #[trigger] (seen + chunk@ + more)) is None
                        &&& encoded_whole(name, seen + chunk@ + more) is None
                    },
            }
        }),
{
    let room = encoder.max_buffer_length_from_utf8_without_replacement(chunk.len()).unwrap();
    let mut bytes = Vec::with_capacity(room.saturating_add(16));
    match encoder.encode_from_utf8_to_vec_without_replacement(chunk, &mut bytes, last).0 {
        encoding_rs::EncoderResult::InputEmpty => Some(bytes),
        encoding_rs::EncoderResult::OutputFull => None,
        encoding_rs::EncoderResult::Unmappable(_) => None,
    }
}

} // verus!
