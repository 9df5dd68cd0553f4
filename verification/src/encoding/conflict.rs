//! Detects content that starts as clear UTF-8 and then breaks it: a sign of mixed encodings.

use crate::encoding::segments;
use crate::encoding::segments::{UTF8_SEGMENT_MIN_BYTES, UTF8_SEGMENT_MIN_NON_ASCII_BYTES};
use crate::encoding::stats;
use crate::encoding::utf8;
use crate::encoding::utf8::Utf8Evidence;
use vstd::prelude::*;

verus! {

/// Whether the longest valid prefix is clearly UTF-8.
pub open spec fn clear_prefix(bytes: Seq<u8>) -> bool {
    let known = utf8::utf8_valid_up_to(bytes);
    &&& known >= UTF8_SEGMENT_MIN_BYTES
    &&& segments::non_ascii_count(bytes.take(known)) >= UTF8_SEGMENT_MIN_NON_ASCII_BYTES
}

/// The one-based hex-view row in which a clear UTF-8 prefix ends, where it is `broken`.
pub open spec fn conflict_row(bytes: Seq<u8>, broken: bool) -> Option<nat> {
    if broken && clear_prefix(bytes) {
        Some(stats::saturated(utf8::utf8_valid_up_to(bytes) as nat) / 16 + 1)
    } else {
        None
    }
}

/// The row of the conflict in a whole content.
pub open spec fn whole_conflict(bytes: Seq<u8>) -> Option<nat> {
    conflict_row(bytes, !(utf8::utf8_run(bytes) is Boundary))
}

/// Scans content that arrives in chunks for the end of a clear UTF-8 prefix.
#[derive(Clone, Copy, Debug)]
pub struct Utf8PrefixScanner {
    evidence: Utf8Evidence,
    seen: usize,
    seen_non_ascii: usize,
    valid_bytes: usize,
    valid_non_ascii: usize,
}

impl Utf8PrefixScanner {
    /// Whether the scanner has seen exactly `bytes`.
    pub closed spec fn describes(&self, bytes: Seq<u8>) -> bool {
        let known = utf8::utf8_valid_up_to(bytes);
        &&& self.evidence.mark() == utf8::utf8_run(bytes)
        &&& self.seen == stats::saturated(bytes.len())
        &&& self.seen_non_ascii == stats::saturated(segments::non_ascii_count(bytes))
        &&& self.valid_bytes == stats::saturated(known as nat)
        &&& self.valid_non_ascii == stats::saturated(
            segments::non_ascii_count(bytes.take(known)),
        )
    }

    /// A scanner that has seen nothing.
    pub fn new() -> (scanner: Self)
        ensures
            scanner.describes(Seq::empty()),
    {
        assert(Seq::<u8>::empty().take(0) =~= Seq::<u8>::empty());
        Utf8PrefixScanner {
            evidence: Utf8Evidence::new(),
            seen: 0,
            seen_non_ascii: 0,
            valid_bytes: 0,
            valid_non_ascii: 0,
        }
    }

    fn push_byte(&mut self, byte: u8)
        ensures
            final(self).evidence.mark() == utf8::utf8_step(old(self).evidence.mark(), byte),
            forall|bytes: Seq<u8>|
                old(self).describes(bytes) ==> #[trigger] final(self).describes(bytes.push(byte)),
    {
        let ghost before = *self;
        self.evidence.push(byte);
        self.seen = self.seen.saturating_add(1);
        if byte >= 0x80 {
            self.seen_non_ascii = self.seen_non_ascii.saturating_add(1);
        }
        if self.evidence.is_complete_and_valid() {
            self.valid_bytes = self.seen;
            self.valid_non_ascii = self.seen_non_ascii;
        }
        proof {
            assert forall|bytes: Seq<u8>|
                before.describes(bytes) implies #[trigger] self.describes(bytes.push(byte)) by {
                let longer = bytes.push(byte);
                assert(longer.drop_last() =~= bytes);
                assert(longer.last() == byte);
                utf8::utf8_valid_up_to_is_longest(bytes);
                let known = utf8::utf8_valid_up_to(longer);
                if utf8::utf8_run(longer) is Boundary {
                    assert(longer.take(known) =~= longer);
                } else {
                    assert(longer.take(known) =~= bytes.take(known));
                }
            }
        }
    }

    /// Whether the valid prefix seen so far is clearly UTF-8.
    fn is_clear(&self) -> (clear: bool)
        ensures
            forall|bytes: Seq<u8>| #[trigger] self.describes(bytes) ==> clear == clear_prefix(bytes),
    {
        proof {
            assert forall|bytes: Seq<u8>| #[trigger] self.describes(
                bytes,
            ) implies utf8::utf8_valid_up_to(bytes) >= 0 by {
                utf8::utf8_valid_up_to_is_longest(bytes);
            }
        }
        self.valid_bytes >= UTF8_SEGMENT_MIN_BYTES && self.valid_non_ascii
            >= UTF8_SEGMENT_MIN_NON_ASCII_BYTES
    }

    /// Scans one more chunk and reports the conflict when this chunk brings it.
    pub fn push(&mut self, input: &[u8]) -> (result: Option<usize>)
        ensures
            forall|bytes: Seq<u8>|
                #![trigger old(self).describes(bytes)]
                old(self).describes(bytes) ==> {
                    &&& final(self).describes(bytes + input@)
                    &&& match result {
                        Some(row) => {
                            &&& !(utf8::utf8_run(bytes) is Rejected)
                            &&& conflict_row(
                                bytes + input@,
                                utf8::utf8_run(bytes + input@) is Rejected,
                            ) == Some(row as nat)
                        },
                        None => utf8::utf8_run(bytes) is Rejected || conflict_row(
                            bytes + input@,
                            utf8::utf8_run(bytes + input@) is Rejected,
                        ) is None,
                    }
                },
    {
        let ghost before = *self;
        let abandoned = self.evidence.is_rejected();
        let mut index: usize = 0;
        proof {
            assert forall|bytes: Seq<u8>| #[trigger] before.describes(bytes) implies self.describes(
                bytes + input@.take(0),
            ) by {
                assert(bytes + input@.take(0) =~= bytes);
            }
        }
        while index < input.len()
            invariant
                index <= input.len(),
                forall|bytes: Seq<u8>|
                    #[trigger] before.describes(bytes) ==> self.describes(
                        bytes + input@.take(index as int),
                    ),
            decreases input.len() - index,
        {
            let byte: u8 = input[index];
            let ghost here = *self;
            self.push_byte(byte);
            proof {
                assert forall|bytes: Seq<u8>|
                    #[trigger] before.describes(bytes) implies self.describes(
                    bytes + input@.take(index + 1),
                ) by {
                    assert(here.describes(bytes + input@.take(index as int)));
                    assert((bytes + input@.take(index as int)).push(byte) =~= bytes + input@.take(
                        index + 1,
                    ));
                }
            }
            index += 1;
        }
        assert(input@.take(input@.len() as int) =~= input@);
        if !abandoned && self.evidence.is_rejected() && self.is_clear() {
            Some(self.valid_bytes / 16 + 1)
        } else {
            None
        }
    }

    /// Ends the content: an incomplete scalar at its end is a conflict too.
    pub fn finish(&self) -> (result: Option<usize>)
        ensures
            forall|bytes: Seq<u8>|
                #![trigger self.describes(bytes)]
                self.describes(bytes) ==> match result {
                    Some(row) => conflict_row(bytes, utf8::utf8_run(bytes) is Inside) == Some(
                        row as nat,
                    ),
                    None => conflict_row(bytes, utf8::utf8_run(bytes) is Inside) is None,
                },
    {
        if !self.evidence.is_rejected() && !self.evidence.is_complete_and_valid()
            && self.is_clear() {
            Some(self.valid_bytes / 16 + 1)
        } else {
            None
        }
    }
}

} // verus!
