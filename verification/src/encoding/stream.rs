//! Reading an accepted content chunk by chunk: as decoded text, or as UTF-8 bytes in pieces of
//! any size.

use crate::encoding::decoder;
use crate::encoding::decoder::{Charset, StrictDecoder};
use crate::encoding::detect::DetectedEncoding;
use crate::encoding::utf8;
use vstd::prelude::*;
use vstd::slice::{slice_subrange, slice_to_vec};
use vstd::string::*;
use vstd::utf8::*;

verus! {

/// What came of a chunk.
#[derive(Debug, PartialEq, Eq)]
pub enum ChunkStep {
    /// It adds this text.
    Text(String),
    /// It adds nothing yet; another chunk is needed.
    More,
    /// There is no more text.
    End,
}

impl ChunkStep {
    /// The text that is added.
    pub open spec fn text(&self) -> Seq<char> {
        match self {
            ChunkStep::Text(text) => text@,
            _ => Seq::empty(),
        }
    }
}

/// The text of a content that is read in chunks.
pub struct DecodedChunkReader {
    decoder: StrictDecoder,
    finished: bool,
    charset: Ghost<Charset>,
    fed: Ghost<Seq<u8>>,
    text: Ghost<Seq<char>>,
}

impl DecodedChunkReader {
    /// The encoding of the content.
    pub closed spec fn charset(&self) -> Charset {
        self.charset@
    }

    /// The content that was read.
    pub closed spec fn fed(&self) -> Seq<u8> {
        self.fed@
    }

    /// The text that was handed out.
    pub closed spec fn text(&self) -> Seq<char> {
        self.text@
    }

    /// Whether the content was read to its end.
    pub closed spec fn finished(&self) -> bool {
        self.finished
    }

    /// Whether the text is that of the content: of all of it, once it was read to its end.
    pub closed spec fn wf(&self) -> bool {
        if self.finished {
            decoder::whole_text(self.charset@, self.fed@) == Some(self.text@)
        } else {
            &&& self.decoder.wf()
            &&& self.decoder.charset() == self.charset@
            &&& self.decoder.fed() == self.fed@
            &&& self.decoder.produced() == self.text@
        }
    }

    /// A reader that was given nothing. The content begins after its byte order mark.
    pub fn open(detected: &DetectedEncoding) -> (reader: Self)
        ensures
            reader.wf(),
            reader.charset() == detected@.charset,
            reader.fed() == Seq::<u8>::empty(),
            reader.text() == Seq::<char>::empty(),
            !reader.finished(),
    {
        DecodedChunkReader {
            decoder: StrictDecoder::new(detected.kind),
            finished: false,
            charset: Ghost(detected@.charset),
            fed: Ghost(Seq::empty()),
            text: Ghost(Seq::empty()),
        }
    }

    /// Whether the content was read to its end.
    pub fn is_finished(&self) -> (finished: bool)
        ensures
            finished == self.finished(),
    {
        self.finished
    }

    /// Decodes one more chunk; an empty one is the end of the content. An error means that the
    /// content is not well-formed, whatever might follow.
    pub fn next_chunk(&mut self, input: &[u8]) -> (result: Result<ChunkStep, ()>)
        requires
            old(self).wf(),
        ensures
            old(self).finished() ==> result == Ok::<ChunkStep, ()>(ChunkStep::End) && *final(self)
                == *old(self),
            !old(self).finished() ==> match result {
                Ok(step) => {
                    &&& final(self).wf()
                    &&& final(self).charset() == old(self).charset()
                    &&& final(self).fed() == old(self).fed() + input@
                    &&& final(self).text() == old(self).text() + step.text()
                    &&& final(self).finished() == (input@.len() == 0)
                    &&& step is Text <==> step.text().len() > 0
                    &&& step is End ==> input@.len() == 0
                    &&& step is More ==> input@.len() > 0
                    &&& input@.len() == 0 ==> decoder::whole_text(
                        old(self).charset(),
                        old(self).fed(),
                    ) == Some(final(self).text())
                    &&& input@.len() > 0 ==> decoder::prefix_text(
                        old(self).charset(),
                        final(self).fed(),
                    ) == Some(final(self).text())
                },
                Err(_) => {
                    &&& input@.len() == 0 ==> decoder::whole_text(
                        old(self).charset(),
                        old(self).fed(),
                    ) is None
                    &&& input@.len() > 0 ==> forall|more: Seq<u8>|
                        decoder::whole_text(
                            old(self).charset(),
                            #[trigger] (old(self).fed() + input@ + more),
                        ) is None
                },
            },
    {
        if self.finished {
            return Ok(ChunkStep::End);
        }
        let ghost fed = self.fed@ + input@;
        let is_last = input.len() == 0;
        proof {
            if is_last {
                assert(fed =~= self.fed@);
            }
        }
        let text = match self.decoder.push(input, is_last) {
            Ok(text) => text,
            Err(_) => {
                return Err(());
            },
        };
        self.fed = Ghost(fed);
        self.text = Ghost(self.text@ + text@);
        self.finished = is_last;
        if !text.as_str().is_empty() {
            return Ok(ChunkStep::Text(text));
        }
        assert(text@ =~= Seq::<char>::empty());
        if is_last {
            Ok(ChunkStep::End)
        } else {
            Ok(ChunkStep::More)
        }
    }
}

/// What a reader has to say when it is asked for bytes.
#[derive(Debug, PartialEq, Eq)]
pub enum ReadStep {
    /// These are the next bytes.
    Bytes(Vec<u8>),
    /// A chunk of the content is needed first.
    NeedChunk,
    /// All bytes were handed out.
    End,
}

/// The text of an accepted content as UTF-8 bytes, in pieces of any size.
pub struct Utf8Reader {
    chunks: DecodedChunkReader,
    pending: Vec<u8>,
    pending_offset: usize,
    given: Ghost<Seq<u8>>,
}

impl Utf8Reader {
    /// The encoding of the content.
    pub closed spec fn charset(&self) -> Charset {
        self.chunks.charset()
    }

    /// The content that was read.
    pub closed spec fn fed(&self) -> Seq<u8> {
        self.chunks.fed()
    }

    /// Whether the content was read to its end.
    pub closed spec fn finished(&self) -> bool {
        self.chunks.finished()
    }

    /// The bytes that were handed out.
    pub closed spec fn given(&self) -> Seq<u8> {
        self.given@
    }

    /// The bytes that can be handed out without another chunk.
    pub closed spec fn ready(&self) -> Seq<u8> {
        self.pending@.skip(self.pending_offset as int)
    }

    /// Whether what was handed out, and what is ready, is the text of what was read.
    pub closed spec fn wf(&self) -> bool {
        &&& self.chunks.wf()
        &&& self.pending_offset <= self.pending@.len()
        &&& self.given@ + self.pending@.skip(self.pending_offset as int) == encode_utf8(
            self.chunks.text(),
        )
    }

    /// A reader that was given nothing. The content begins after its byte order mark.
    pub fn open_source(detected: &DetectedEncoding) -> (reader: Self)
        ensures
            reader.wf(),
            reader.charset() == detected@.charset,
            reader.fed() == Seq::<u8>::empty(),
            !reader.finished(),
            reader.given() == Seq::<u8>::empty(),
            reader.ready() == Seq::<u8>::empty(),
    {
        let reader = Utf8Reader {
            chunks: DecodedChunkReader::open(detected),
            pending: Vec::new(),
            pending_offset: 0,
            given: Ghost(Seq::empty()),
        };
        proof {
            assert(reader.pending@.skip(0) =~= Seq::<u8>::empty());
            assert(encode_utf8(Seq::<char>::empty()) =~= Seq::<u8>::empty());
            assert(reader.given@ + reader.pending@.skip(0) =~= Seq::<u8>::empty());
        }
        reader
    }

    /// Hands out the next bytes, at most `room` of them. At the end, all that was handed out is
    /// the text of the whole content.
    pub fn read(&mut self, room: usize) -> (step: ReadStep)
        requires
            old(self).wf(),
        ensures
            final(self).wf(),
            final(self).charset() == old(self).charset(),
            final(self).fed() == old(self).fed(),
            final(self).finished() == old(self).finished(),
            match step {
                ReadStep::Bytes(bytes) => {
                    let count = if room < old(self).ready().len() {
                        room as int
                    } else {
                        old(self).ready().len() as int
                    };
                    &&& room == 0 || old(self).ready().len() > 0
                    &&& bytes@ == old(self).ready().take(count)
                    &&& final(self).given() == old(self).given() + bytes@
                    &&& final(self).ready() == old(self).ready().skip(count)
                },
                ReadStep::NeedChunk => {
                    &&& room > 0 && old(self).ready().len() == 0 && !old(self).finished()
                    &&& final(self).given() == old(self).given()
                    &&& final(self).ready() == old(self).ready()
                },
                ReadStep::End => {
                    &&& room > 0 && old(self).ready().len() == 0 && old(self).finished()
                    &&& final(self).given() == old(self).given()
                    &&& final(self).ready() == old(self).ready()
                    &&& decoder::whole_text(old(self).charset(), old(self).fed()) matches Some(text)
                    &&& old(self).given() == encode_utf8(text)
                },
            },
    {
        if room == 0 {
            assert(self.ready().take(0) =~= Seq::<u8>::empty());
            assert(self.ready().skip(0) =~= self.ready());
            assert(self.given@ + Seq::<u8>::empty() =~= self.given@);
            return ReadStep::Bytes(Vec::new());
        }
        let available = self.pending.len() - self.pending_offset;
        if available > 0 {
            let count = if room < available {
                room
            } else {
                available
            };
            let from = self.pending_offset;
            let ghost ready = self.ready();
            let bytes = slice_to_vec(slice_subrange(self.pending.as_slice(), from, from + count));
            self.pending_offset = from + count;
            proof {
                assert(bytes@ =~= ready.take(count as int));
                assert(self.pending@.skip(from + count) =~= ready.skip(count as int));
                assert(self.given@ + bytes@ + ready.skip(count as int) =~= self.given@ + ready);
            }
            self.given = Ghost(self.given@ + bytes@);
            return ReadStep::Bytes(bytes);
        }
        assert(self.given@ + self.ready() =~= self.given@);
        if self.chunks.is_finished() {
            ReadStep::End
        } else {
            ReadStep::NeedChunk
        }
    }

    /// Takes in the chunk that was asked for; an empty one is the end of the content. An error
    /// means that the content is not well-formed, whatever might follow.
    pub fn feed(&mut self, input: &[u8]) -> (result: Result<(), String>)
        requires
            old(self).wf(),
            old(self).ready().len() == 0,
            !old(self).finished(),
        ensures
            match result {
                Ok(()) => {
                    &&& final(self).wf()
                    &&& final(self).charset() == old(self).charset()
                    &&& final(self).fed() == old(self).fed() + input@
                    &&& final(self).finished() == (input@.len() == 0)
                    &&& final(self).given() == old(self).given()
                    &&& input@.len() > 0 ==> {
                        &&& decoder::prefix_text(old(self).charset(), final(self).fed()) matches Some(
                            text,
                        )
                        &&& final(self).given() + final(self).ready() == encode_utf8(text)
                    }
                    &&& input@.len() == 0 ==> {
                        &&& decoder::whole_text(old(self).charset(), final(self).fed()) matches Some(
                            text,
                        )
                        &&& final(self).given() + final(self).ready() == encode_utf8(text)
                    }
                },
                Err(message) => {
                    &&& message@ == "file changed after encoding validation"@
                    &&& input@.len() == 0 ==> decoder::whole_text(
                        old(self).charset(),
                        old(self).fed(),
                    ) is None
                    &&& input@.len() > 0 ==> forall|more: Seq<u8>|
                        decoder::whole_text(
                            old(self).charset(),
                            #[trigger] (old(self).fed() + input@ + more),
                        ) is None
                },
            },
    {
        let ghost before = self.chunks.text();
        assert(self.given@ + self.ready() =~= self.given@);
        let step = match self.chunks.next_chunk(input) {
            Ok(step) => step,
            Err(_) => {
                return Err("file changed after encoding validation".to_owned());
            },
        };
        let ghost added = step.text();
        proof {
            utf8::encode_utf8_concat(before, added);
        }
        match step {
            ChunkStep::Text(text) => {
                self.pending = slice_to_vec(text.as_str().as_bytes());
                self.pending_offset = 0;
                assert(self.pending@.skip(0) =~= encode_utf8(added));
            },
            _ => {
                assert(before + added =~= before);
            },
        }
        Ok(())
    }
}

} // verus!
