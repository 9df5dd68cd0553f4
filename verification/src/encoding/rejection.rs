//! Why a content is not accepted as text, and how that is said.

use crate::text;
use crate::text::decimal_text;
use vstd::prelude::*;
use vstd::string::*;

verus! {

/// Why automatic or explicit encoding selection failed.
#[derive(Clone, Debug, PartialEq, Eq)]
#[allow(inconsistent_fields)]
pub enum EncodingRejection {
    /// Several encodings decode the content cleanly, or one without enough evidence.
    Ambiguous { candidates: Vec<&'static str> },
    /// No single encoding explains the whole content.
    MixedOrInconsistent { conflict_hex_offset: Option<usize> },
    /// Valid UTF-8 with escape sequences of a stateful encoding.
    Iso2022JpSignature,
    /// Nothing decodes the content.
    Undecodable,
    /// The byte order mark and the content contradict each other.
    BomMismatch { encoding: &'static str },
    /// The content is not well-formed in the encoding asked for.
    ExplicitMalformed { encoding: String },
    /// The label asked for selects no encoding.
    InvalidLabel { value: String },
}

/// The mathematical value of an [`EncodingRejection`].
pub enum RejectionSpec {
    Ambiguous(Seq<Seq<char>>),
    MixedOrInconsistent(Option<usize>),
    Iso2022JpSignature,
    Undecodable,
    BomMismatch(Seq<char>),
    ExplicitMalformed(Seq<char>),
    InvalidLabel(Seq<char>),
}

/// The character sequences of names.
pub open spec fn name_views(names: Seq<&'static str>) -> Seq<Seq<char>> {
    names.map(|i: int, name: &'static str| name@)
}

impl View for EncodingRejection {
    type V = RejectionSpec;

    open spec fn view(&self) -> RejectionSpec {
        match self {
            EncodingRejection::Ambiguous { candidates } => RejectionSpec::Ambiguous(
                name_views(candidates@),
            ),
            EncodingRejection::MixedOrInconsistent { conflict_hex_offset } => {
                RejectionSpec::MixedOrInconsistent(*conflict_hex_offset)
            },
            EncodingRejection::Iso2022JpSignature => RejectionSpec::Iso2022JpSignature,
            EncodingRejection::Undecodable => RejectionSpec::Undecodable,
            EncodingRejection::BomMismatch { encoding } => RejectionSpec::BomMismatch(encoding@),
            EncodingRejection::ExplicitMalformed { encoding } => {
                RejectionSpec::ExplicitMalformed(encoding@)
            },
            EncodingRejection::InvalidLabel { value } => RejectionSpec::InvalidLabel(value@),
        }
    }
}

/// The sentence that points at the first conflicting bytes.
pub open spec fn conflict_sentence(offset: Option<usize>) -> Seq<char> {
    match offset {
        Some(offset) => " The first conflicting bytes are at hex-view offset "@ + text::decimal(
            offset as nat,
        ) + "."@,
        None => Seq::empty(),
    }
}

/// The error message for a file.
pub open spec fn rejection_message(rejection: RejectionSpec, path: Seq<char>) -> Seq<char> {
    match rejection {
        RejectionSpec::Ambiguous(candidates) => "Cannot determine the text encoding of "@ + path
            + " with confidence: the bytes decode cleanly as "@ + text::joined(candidates, ", "@)
            + ". Retry with encoding=\"...\" if the context tells you which one, or use view=\"hex\"."@,
        RejectionSpec::MixedOrInconsistent(offset) => "Cannot decode "@ + path
            + " as text: it appears to contain mixed or inconsistent encodings — no single encoding explains the whole file."@
            + conflict_sentence(offset)
            + " Use view=\"hex\" to inspect the raw bytes, or split/normalize the file to a single encoding externally."@,
        RejectionSpec::Iso2022JpSignature => "Cannot decode "@ + path
            + " as text with confidence: the bytes are valid UTF-8 but contain ISO-2022 escape sequences (a stateful encoding such as ISO-2022-JP). Retry with encoding=\"iso-2022-jp\", or encoding=\"utf-8\" to force the raw UTF-8 reading, or use view=\"hex\"."@,
        RejectionSpec::Undecodable => "Cannot decode "@ + path
            + " as text: no supported encoding decodes it cleanly. Use view=\"hex\" to inspect its raw bytes."@,
        RejectionSpec::BomMismatch(encoding) => "Cannot decode "@ + path + ": it has a "@ + encoding
            + " byte order mark but the content is not valid "@ + encoding
            + ". Use view=\"hex\" to inspect its raw bytes."@,
        RejectionSpec::ExplicitMalformed(encoding) => "Cannot decode "@ + path + " as "@ + encoding
            + ": the content is not valid "@ + encoding
            + ". Try another encoding or view=\"hex\"."@,
        RejectionSpec::InvalidLabel(value) => "Invalid encoding value \""@ + value
            + "\". Use a WHATWG encoding label such as \"gbk\", \"shift_jis\", \"big5\", \"euc-kr\", \"windows-1252\", \"utf-16le\", or \"utf-32le\"."@,
    }
}

/// The short reason that a directory report gives.
pub open spec fn rejection_reason(rejection: RejectionSpec) -> Seq<char> {
    match rejection {
        RejectionSpec::Ambiguous(candidates) => "ambiguous: "@ + text::joined(candidates, ", "@),
        RejectionSpec::Iso2022JpSignature => "ambiguous: iso-2022-jp"@,
        RejectionSpec::MixedOrInconsistent(_) => "mixed or inconsistent encodings"@,
        _ => "undecodable"@,
    }
}

fn join_names(names: &Vec<&'static str>, separator: &str) -> (text: String)
    ensures
        text@ == text::joined(name_views(names@), separator@),
{
    let mut text = String::new();
    let mut index: usize = 0;
    assert(name_views(names@.take(0)) =~= Seq::<Seq<char>>::empty());
    while index < names.len()
        invariant
            index <= names.len(),
            text@ == text::joined(name_views(names@.take(index as int)), separator@),
        decreases names.len() - index,
    {
        proof {
            let longer = name_views(names@.take(index + 1));
            assert(longer.drop_last() =~= name_views(names@.take(index as int)));
            assert(longer.last() == names@[index as int]@);
        }
        if index > 0 {
            text.append(separator);
        }
        text.append(names[index]);
        proof {
            let longer = name_views(names@.take(index + 1));
            if index == 0 {
                assert(text@ =~= longer[0]);
            }
        }
        index += 1;
    }
    assert(names@.take(names@.len() as int) =~= names@);
    text
}

impl EncodingRejection {
    /// The error message for a file.
    pub fn message(&self, path: &str) -> (message: String)
        ensures
            message@ == rejection_message(self@, path@),
    {
        match self {
            EncodingRejection::Ambiguous { candidates } => {
                let mut message = "Cannot determine the text encoding of ".to_owned();
                message.append(path);
                message.append(" with confidence: the bytes decode cleanly as ");
                message.append(join_names(candidates, ", ").as_str());
                message.append(
                    ". Retry with encoding=\"...\" if the context tells you which one, or use view=\"hex\".",
                );
                message
            },
            EncodingRejection::MixedOrInconsistent { conflict_hex_offset } => {
                let mut message = "Cannot decode ".to_owned();
                message.append(path);
                message.append(
                    " as text: it appears to contain mixed or inconsistent encodings — no single encoding explains the whole file.",
                );
                let sentence = match conflict_hex_offset {
                    Some(offset) => {
                        let mut sentence =
                            " The first conflicting bytes are at hex-view offset ".to_owned();
                        sentence.append(decimal_text(*offset as u64).as_str());
                        sentence.append(".");
                        sentence
                    },
                    None => String::new(),
                };
                message.append(sentence.as_str());
                message.append(
                    " Use view=\"hex\" to inspect the raw bytes, or split/normalize the file to a single encoding externally.",
                );
                message
            },
            EncodingRejection::Iso2022JpSignature => {
                let mut message = "Cannot decode ".to_owned();
                message.append(path);
                message.append(
                    " as text with confidence: the bytes are valid UTF-8 but contain ISO-2022 escape sequences (a stateful encoding such as ISO-2022-JP). Retry with encoding=\"iso-2022-jp\", or encoding=\"utf-8\" to force the raw UTF-8 reading, or use view=\"hex\".",
                );
                message
            },
            EncodingRejection::Undecodable => {
                let mut message = "Cannot decode ".to_owned();
                message.append(path);
                message.append(
                    " as text: no supported encoding decodes it cleanly. Use view=\"hex\" to inspect its raw bytes.",
                );
                message
            },
            EncodingRejection::BomMismatch { encoding } => {
                let mut message = "Cannot decode ".to_owned();
                message.append(path);
                message.append(": it has a ");
                message.append(encoding);
                message.append(" byte order mark but the content is not valid ");
                message.append(encoding);
                message.append(". Use view=\"hex\" to inspect its raw bytes.");
                message
            },
            EncodingRejection::ExplicitMalformed { encoding } => {
                let mut message = "Cannot decode ".to_owned();
                message.append(path);
                message.append(" as ");
                message.append(encoding.as_str());
                message.append(": the content is not valid ");
                message.append(encoding.as_str());
                message.append(". Try another encoding or view=\"hex\".");
                message
            },
            EncodingRejection::InvalidLabel { value } => {
                let mut message = "Invalid encoding value \"".to_owned();
                message.append(value.as_str());
                message.append(
                    "\". Use a WHATWG encoding label such as \"gbk\", \"shift_jis\", \"big5\", \"euc-kr\", \"windows-1252\", \"utf-16le\", or \"utf-32le\".",
                );
                message
            },
        }
    }

    /// The short reason that a directory report gives.
    pub fn skip_reason(&self) -> (reason: String)
        ensures
            reason@ == rejection_reason(self@),
    {
        match self {
            EncodingRejection::Ambiguous { candidates } => {
                let mut reason = "ambiguous: ".to_owned();
                reason.append(join_names(candidates, ", ").as_str());
                reason
            },
            EncodingRejection::Iso2022JpSignature => "ambiguous: iso-2022-jp".to_owned(),
            EncodingRejection::MixedOrInconsistent { .. } => {
                "mixed or inconsistent encodings".to_owned()
            },
            EncodingRejection::Undecodable
            | EncodingRejection::BomMismatch { .. }
            | EncodingRejection::ExplicitMalformed { .. }
            | EncodingRejection::InvalidLabel { .. } => "undecodable".to_owned(),
        }
    }
}

} // verus!
