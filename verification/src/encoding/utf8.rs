//! Byte-at-a-time UTF-8 recognition and its relation to whole-sequence validity.

use vstd::prelude::*;
use vstd::utf8::*;

verus! {

/// Where a byte sequence stands with respect to UTF-8.
#[derive(Clone, Copy, Debug, PartialEq, Eq, Structural)]
pub enum Utf8Mark {
    /// Every scalar so far is complete.
    Boundary,
    /// The last scalar still needs `remaining` bytes, the next one from `low` to `high`.
    Inside { remaining: u8, low: u8, high: u8 },
    /// No continuation can make the sequence valid.
    Rejected,
}

/// The mark after one more byte.
pub open spec fn utf8_step(mark: Utf8Mark, byte: u8) -> Utf8Mark {
    match mark {
        Utf8Mark::Rejected => Utf8Mark::Rejected,
        Utf8Mark::Inside { remaining, low, high } => if low <= byte <= high {
            if remaining <= 1 {
                Utf8Mark::Boundary
            } else {
                Utf8Mark::Inside { remaining: (remaining - 1) as u8, low: 0x80, high: 0xBF }
            }
        } else {
            Utf8Mark::Rejected
        },
        Utf8Mark::Boundary => if byte <= 0x7F {
            Utf8Mark::Boundary
        } else if 0xC2 <= byte <= 0xDF {
            Utf8Mark::Inside { remaining: 1, low: 0x80, high: 0xBF }
        } else if byte == 0xE0 {
            Utf8Mark::Inside { remaining: 2, low: 0xA0, high: 0xBF }
        } else if byte == 0xED {
            Utf8Mark::Inside { remaining: 2, low: 0x80, high: 0x9F }
        } else if 0xE1 <= byte <= 0xEF {
            Utf8Mark::Inside { remaining: 2, low: 0x80, high: 0xBF }
        } else if byte == 0xF0 {
            Utf8Mark::Inside { remaining: 3, low: 0x90, high: 0xBF }
        } else if 0xF1 <= byte <= 0xF3 {
            Utf8Mark::Inside { remaining: 3, low: 0x80, high: 0xBF }
        } else if byte == 0xF4 {
            Utf8Mark::Inside { remaining: 3, low: 0x80, high: 0x8F }
        } else {
            Utf8Mark::Rejected
        },
    }
}

/// The mark reached from `mark` over `bytes`.
pub open spec fn utf8_run_from(mark: Utf8Mark, bytes: Seq<u8>) -> Utf8Mark
    decreases bytes.len(),
{
    if bytes.len() == 0 {
        mark
    } else {
        utf8_step(utf8_run_from(mark, bytes.drop_last()), bytes.last())
    }
}

/// The mark of a whole byte sequence.
pub open spec fn utf8_run(bytes: Seq<u8>) -> Utf8Mark {
    utf8_run_from(Utf8Mark::Boundary, bytes)
}

/// Whether some continuation makes the sequence valid UTF-8.
pub open spec fn utf8_extendable(bytes: Seq<u8>) -> bool {
    exists|more: Seq<u8>| valid_utf8(#[trigger] (bytes + more))
}

/// The length of the longest valid prefix.
pub open spec fn utf8_valid_up_to(bytes: Seq<u8>) -> int
    decreases bytes.len(),
{
    if bytes.len() == 0 || utf8_run(bytes) is Boundary {
        bytes.len() as int
    } else {
        utf8_valid_up_to(bytes.drop_last())
    }
}

spec fn mark_ok(mark: Utf8Mark) -> bool {
    match mark {
        Utf8Mark::Inside { remaining, low, high } => {
            1 <= remaining <= 3 && 0x80 <= low <= high <= 0xBF
        },
        _ => true,
    }
}

proof fn width_2_ranges(b1: u8, b2: u8)
    by (bit_vector)
    requires
        0xC0 <= b1 <= 0xDF,
        0x80 <= b2 <= 0xBF,
    ensures
        (0x80 <= codepoint_width_2(b1, b2)) == (b1 >= 0xC2),
        codepoint_width_2(b1, b2) <= 0x7FF,
{
}

proof fn width_3_ranges(b1: u8, b2: u8, b3: u8)
    by (bit_vector)
    requires
        0xE0 <= b1 <= 0xEF,
        0x80 <= b2 <= 0xBF,
        0x80 <= b3 <= 0xBF,
    ensures
        (0x800 <= codepoint_width_3(b1, b2, b3)) == (b1 > 0xE0 || b2 >= 0xA0),
        (0xD800 <= codepoint_width_3(b1, b2, b3) && codepoint_width_3(b1, b2, b3) <= 0xDFFF)
            == (b1 == 0xED && b2 >= 0xA0),
{
}

proof fn width_4_ranges(b1: u8, b2: u8, b3: u8, b4: u8)
    by (bit_vector)
    requires
        0xF0 <= b1 <= 0xF7,
        0x80 <= b2 <= 0xBF,
        0x80 <= b3 <= 0xBF,
        0x80 <= b4 <= 0xBF,
    ensures
        (0x10000 <= codepoint_width_4(b1, b2, b3, b4)) == (b1 > 0xF0 || b2 >= 0x90),
        (codepoint_width_4(b1, b2, b3, b4) <= 0x10FFFF) == (b1 < 0xF4 || (b1 == 0xF4 && b2
            <= 0x8F)),
{
}

proof fn width_1_value(b1: u8)
    by (bit_vector)
    requires
        b1 <= 0x7F,
    ensures
        codepoint_width_1(b1) <= 0x7F,
{
}

/// Running over a concatenation is running over its parts in turn.
pub proof fn utf8_run_concat(mark: Utf8Mark, left: Seq<u8>, right: Seq<u8>)
    ensures
        utf8_run_from(mark, left + right) == utf8_run_from(utf8_run_from(mark, left), right),
    decreases right.len(),
{
    if right.len() == 0 {
        assert(left + right =~= left);
    } else {
        utf8_run_concat(mark, left, right.drop_last());
        assert((left + right).drop_last() =~= left + right.drop_last());
        assert((left + right).last() == right.last());
    }
}

proof fn rejected_stays(bytes: Seq<u8>)
    ensures
        utf8_run_from(Utf8Mark::Rejected, bytes) is Rejected,
    decreases bytes.len(),
{
    if bytes.len() > 0 {
        rejected_stays(bytes.drop_last());
    }
}

proof fn run_take(mark: Utf8Mark, bytes: Seq<u8>, k: int)
    requires
        0 <= k < bytes.len(),
    ensures
        utf8_run_from(mark, bytes.take(k + 1)) == utf8_step(
            utf8_run_from(mark, bytes.take(k)),
            bytes[k],
        ),
{
    assert(bytes.take(k + 1).drop_last() =~= bytes.take(k));
    assert(bytes.take(k + 1).last() == bytes[k]);
}

proof fn first_scalar_run(bytes: Seq<u8>)
    requires
        bytes.len() > 0,
    ensures
        valid_first_scalar(bytes) ==> length_of_first_scalar(bytes) <= bytes.len() && utf8_run(
            bytes.take(length_of_first_scalar(bytes)),
        ) is Boundary,
        !valid_first_scalar(bytes) ==> !(utf8_run(bytes) is Boundary),
{
    let start = Utf8Mark::Boundary;
    let b0 = bytes[0];
    let n = bytes.len() as int;
    assert(bytes.take(0) =~= Seq::<u8>::empty());
    run_take(start, bytes, 0);
    if n >= 2 {
        run_take(start, bytes, 1);
    }
    if n >= 3 {
        run_take(start, bytes, 2);
    }
    if n >= 4 {
        run_take(start, bytes, 3);
    }
    assert(bytes.take(n) =~= bytes);
    if b0 <= 0x7F {
        width_1_value(b0);
    } else {
        if n >= 2 && 0xC0 <= b0 <= 0xDF && 0x80 <= bytes[1] <= 0xBF {
            width_2_ranges(b0, bytes[1]);
        }
        if n >= 3 && 0xE0 <= b0 <= 0xEF && 0x80 <= bytes[1] <= 0xBF && 0x80 <= bytes[2] <= 0xBF {
            width_3_ranges(b0, bytes[1], bytes[2]);
        }
        if n >= 4 && 0xF0 <= b0 <= 0xF7 && 0x80 <= bytes[1] <= 0xBF && 0x80 <= bytes[2] <= 0xBF
            && 0x80 <= bytes[3] <= 0xBF {
            width_4_ranges(b0, bytes[1], bytes[2], bytes[3]);
        }
        if !valid_first_scalar(bytes) {
            if n >= 1 && utf8_run(bytes.take(1)) is Rejected {
                run_split_rejected(bytes, 1);
            }
            if n >= 2 && utf8_run(bytes.take(2)) is Rejected {
                run_split_rejected(bytes, 2);
            }
            if n >= 3 && utf8_run(bytes.take(3)) is Rejected {
                run_split_rejected(bytes, 3);
            }
            if n >= 4 && utf8_run(bytes.take(4)) is Rejected {
                run_split_rejected(bytes, 4);
            }
        }
    }
}

proof fn run_split_rejected(bytes: Seq<u8>, k: int)
    requires
        0 <= k <= bytes.len(),
        utf8_run(bytes.take(k)) is Rejected,
    ensures
        utf8_run(bytes) is Rejected,
{
    assert(bytes =~= bytes.take(k) + bytes.skip(k));
    utf8_run_concat(Utf8Mark::Boundary, bytes.take(k), bytes.skip(k));
    rejected_stays(bytes.skip(k));
}

/// A rejected sequence stays rejected whatever follows.
pub proof fn run_rejected_concat(bytes: Seq<u8>, more: Seq<u8>)
    requires
        utf8_run(bytes) is Rejected,
    ensures
        utf8_run(bytes + more) is Rejected,
{
    utf8_run_concat(Utf8Mark::Boundary, bytes, more);
    rejected_stays(more);
}

/// A sequence ends on a boundary exactly when it is valid UTF-8.
pub proof fn utf8_boundary_is_validity(bytes: Seq<u8>)
    ensures
        utf8_run(bytes) is Boundary <==> valid_utf8(bytes),
    decreases bytes.len(),
{
    if bytes.len() > 0 {
        first_scalar_run(bytes);
        if valid_first_scalar(bytes) {
            let k = length_of_first_scalar(bytes);
            assert(bytes =~= bytes.take(k) + bytes.skip(k));
            assert(pop_first_scalar(bytes) =~= bytes.skip(k));
            utf8_run_concat(Utf8Mark::Boundary, bytes.take(k), bytes.skip(k));
            utf8_boundary_is_validity(bytes.skip(k));
        }
    }
}

proof fn run_keeps_marks_ok(bytes: Seq<u8>)
    ensures
        mark_ok(utf8_run(bytes)),
    decreases bytes.len(),
{
    if bytes.len() > 0 {
        run_keeps_marks_ok(bytes.drop_last());
    }
}

proof fn completion(mark: Utf8Mark) -> (more: Seq<u8>)
    requires
        mark_ok(mark),
        !(mark is Rejected),
    ensures
        utf8_run_from(mark, more) is Boundary,
    decreases (match mark {
        Utf8Mark::Inside { remaining, .. } => remaining as int,
        _ => 0,
    }),
{
    match mark {
        Utf8Mark::Inside { remaining, low, high } => {
            let next = utf8_step(mark, low);
            let rest = completion(next);
            let head = seq![low];
            assert(head.drop_last() =~= Seq::<u8>::empty());
            assert(utf8_run_from(mark, head.drop_last()) == mark);
            assert(utf8_run_from(mark, head) == next);
            utf8_run_concat(mark, head, rest);
            head + rest
        },
        _ => Seq::empty(),
    }
}

/// A sequence is rejected exactly when no continuation makes it valid UTF-8.
pub proof fn utf8_rejection_is_final(bytes: Seq<u8>)
    ensures
        utf8_run(bytes) is Rejected <==> !utf8_extendable(bytes),
{
    run_keeps_marks_ok(bytes);
    if utf8_run(bytes) is Rejected {
        assert forall|more: Seq<u8>| !valid_utf8(#[trigger] (bytes + more)) by {
            utf8_run_concat(Utf8Mark::Boundary, bytes, more);
            rejected_stays(more);
            utf8_boundary_is_validity(bytes + more);
        }
    } else {
        let more = completion(utf8_run(bytes));
        utf8_run_concat(Utf8Mark::Boundary, bytes, more);
        utf8_boundary_is_validity(bytes + more);
        assert(valid_utf8(bytes + more));
    }
}

/// The longest valid prefix is valid, and nothing longer is.
pub proof fn utf8_valid_up_to_is_longest(bytes: Seq<u8>)
    ensures
        0 <= utf8_valid_up_to(bytes) <= bytes.len(),
        valid_utf8(bytes.take(utf8_valid_up_to(bytes))),
        forall|k: int|
            utf8_valid_up_to(bytes) < k <= bytes.len() ==> !valid_utf8(#[trigger] bytes.take(k)),
    decreases bytes.len(),
{
    utf8_boundary_is_validity(bytes);
    assert(bytes.take(bytes.len() as int) =~= bytes);
    if !(bytes.len() == 0 || utf8_run(bytes) is Boundary) {
        let shorter = bytes.drop_last();
        utf8_valid_up_to_is_longest(shorter);
        assert forall|k: int| utf8_valid_up_to(bytes) < k <= bytes.len() implies !valid_utf8(
            #[trigger] bytes.take(k),
        ) by {
            if k < bytes.len() {
                assert(bytes.take(k) =~= shorter.take(k));
            }
        }
        assert(bytes.take(utf8_valid_up_to(bytes)) =~= shorter.take(utf8_valid_up_to(shorter)));
    }
}

/// A sequence that some continuation makes valid ends in at most three bytes of an unfinished
/// scalar value.
pub proof fn utf8_unfinished_is_short(bytes: Seq<u8>)
    ensures
        !(utf8_run(bytes) is Rejected) ==> bytes.len() - utf8_valid_up_to(bytes) <= 3,
        utf8_run(bytes) matches Utf8Mark::Inside { remaining, .. } ==> bytes.len()
            - utf8_valid_up_to(bytes) + remaining <= 4,
    decreases bytes.len(),
{
    run_keeps_marks_ok(bytes);
    if bytes.len() > 0 {
        utf8_unfinished_is_short(bytes.drop_last());
    }
}

/// What follows a rejected sequence changes nothing about its longest valid prefix.
pub proof fn utf8_valid_up_to_rejected(bytes: Seq<u8>, more: Seq<u8>)
    requires
        utf8_run(bytes) is Rejected,
    ensures
        utf8_run(bytes + more) is Rejected,
        utf8_valid_up_to(bytes + more) == utf8_valid_up_to(bytes),
        0 <= utf8_valid_up_to(bytes) <= bytes.len(),
        (bytes + more).take(utf8_valid_up_to(bytes)) == bytes.take(utf8_valid_up_to(bytes)),
    decreases more.len(),
{
    utf8_valid_up_to_is_longest(bytes);
    assert((bytes + more).take(utf8_valid_up_to(bytes)) =~= bytes.take(utf8_valid_up_to(bytes)));
    run_rejected_concat(bytes, more);
    if more.len() == 0 {
        assert(bytes + more =~= bytes);
    } else {
        utf8_valid_up_to_rejected(bytes, more.drop_last());
        assert((bytes + more).drop_last() =~= bytes + more.drop_last());
    }
}

/// A valid prefix can be split off: the rest alone decides mark and longest valid prefix.
pub proof fn utf8_after_valid_prefix(prefix: Seq<u8>, rest: Seq<u8>)
    requires
        valid_utf8(prefix),
    ensures
        utf8_run(prefix + rest) == utf8_run(rest),
        utf8_valid_up_to(prefix + rest) == prefix.len() + utf8_valid_up_to(rest),
    decreases rest.len(),
{
    utf8_boundary_is_validity(prefix);
    utf8_run_concat(Utf8Mark::Boundary, prefix, rest);
    if rest.len() == 0 {
        assert(prefix + rest =~= prefix);
    } else {
        utf8_after_valid_prefix(prefix, rest.drop_last());
        assert((prefix + rest).drop_last() =~= prefix + rest.drop_last());
    }
}

/// Encoding distributes over concatenation.
pub proof fn encode_utf8_concat(left: Seq<char>, right: Seq<char>)
    ensures
        encode_utf8(left + right) == encode_utf8(left) + encode_utf8(right),
    decreases left.len(),
{
    if left.len() == 0 {
        assert(left + right =~= right);
        assert(encode_utf8(left) =~= Seq::<u8>::empty());
        assert(encode_utf8(left) + encode_utf8(right) =~= encode_utf8(right));
    } else {
        encode_utf8_concat(left.drop_first(), right);
        assert((left + right).drop_first() =~= left.drop_first() + right);
        assert((left + right)[0] == left[0]);
        assert(encode_utf8(left + right) =~= encode_utf8(left) + encode_utf8(right));
    }
}

/// Decoding distributes over the concatenation of valid sequences.
pub proof fn decode_utf8_concat(left: Seq<u8>, right: Seq<u8>)
    requires
        valid_utf8(left),
        valid_utf8(right),
    ensures
        valid_utf8(left + right),
        decode_utf8(left + right) == decode_utf8(left) + decode_utf8(right),
{
    decode_utf8_encode_utf8(left);
    decode_utf8_encode_utf8(right);
    encode_utf8_concat(decode_utf8(left), decode_utf8(right));
    encode_utf8_valid_utf8(decode_utf8(left) + decode_utf8(right));
    encode_utf8_decode_utf8(decode_utf8(left) + decode_utf8(right));
}

/// Incremental recogniser of valid UTF-8.
#[derive(Clone, Copy, Debug)]
pub struct Utf8Evidence {
    valid: bool,
    remaining: u8,
    next_min: u8,
    next_max: u8,
}

impl Utf8Evidence {
    /// The mark that the recogniser stands at.
    pub closed spec fn mark(&self) -> Utf8Mark {
        if !self.valid {
            Utf8Mark::Rejected
        } else if self.remaining > 0 {
            Utf8Mark::Inside {
                remaining: self.remaining,
                low: self.next_min,
                high: self.next_max,
            }
        } else {
            Utf8Mark::Boundary
        }
    }

    /// A recogniser that has seen nothing.
    pub fn new() -> (evidence: Self)
        ensures
            evidence.mark() == utf8_run(Seq::empty()),
    {
        Utf8Evidence { valid: true, remaining: 0, next_min: 0, next_max: 0 }
    }

    /// Observes one byte.
    pub fn push(&mut self, byte: u8)
        ensures
            final(self).mark() == utf8_step(old(self).mark(), byte),
    {
        if !self.valid {
            return;
        }
        if self.remaining > 0 {
            if byte < self.next_min || byte > self.next_max {
                self.valid = false;
                return;
            }
            self.remaining = self.remaining - 1;
            self.next_min = 0x80;
            self.next_max = 0xBF;
            return;
        }
        if byte <= 0x7F {
        } else if 0xC2 <= byte && byte <= 0xDF {
            self.begin(1, 0x80, 0xBF);
        } else if byte == 0xE0 {
            self.begin(2, 0xA0, 0xBF);
        } else if byte == 0xED {
            self.begin(2, 0x80, 0x9F);
        } else if 0xE1 <= byte && byte <= 0xEF {
            self.begin(2, 0x80, 0xBF);
        } else if byte == 0xF0 {
            self.begin(3, 0x90, 0xBF);
        } else if 0xF1 <= byte && byte <= 0xF3 {
            self.begin(3, 0x80, 0xBF);
        } else if byte == 0xF4 {
            self.begin(3, 0x80, 0x8F);
        } else {
            self.valid = false;
        }
    }

    fn begin(&mut self, remaining: u8, next_min: u8, next_max: u8)
        ensures
            final(self).valid == old(self).valid,
            final(self).remaining == remaining,
            final(self).next_min == next_min,
            final(self).next_max == next_max,
    {
        self.remaining = remaining;
        self.next_min = next_min;
        self.next_max = next_max;
    }

    /// Whether everything seen so far is valid UTF-8.
    pub fn is_complete_and_valid(&self) -> (complete: bool)
        ensures
            complete == (self.mark() is Boundary),
    {
        self.valid && self.remaining == 0
    }

    /// Whether no continuation can be valid UTF-8 any more.
    pub fn is_rejected(&self) -> (rejected: bool)
        ensures
            rejected == (self.mark() is Rejected),
    {
        !self.valid
    }
}

/// What one scan of a byte sequence shows about UTF-8.
#[derive(Clone, Copy, Debug)]
pub struct Utf8Scan {
    /// Length of the longest valid prefix.
    pub valid_up_to: usize,
    /// Whether an unexpected byte follows that prefix, so that no continuation helps.
    pub rejected: bool,
}

/// Finds the longest valid prefix and tells an incomplete tail from a wrong one.
pub fn scan_utf8(bytes: &[u8]) -> (scan: Utf8Scan)
    ensures
        scan.valid_up_to == utf8_valid_up_to(bytes@),
        scan.valid_up_to <= bytes.len(),
        scan.rejected == (utf8_run(bytes@) is Rejected),
        scan.valid_up_to == bytes.len() <==> valid_utf8(bytes@),
{
    let mut evidence = Utf8Evidence::new();
    let mut valid_up_to: usize = 0;
    let mut index: usize = 0;
    while index < bytes.len()
        invariant
            index <= bytes.len(),
            evidence.mark() == utf8_run(bytes@.take(index as int)),
            valid_up_to == utf8_valid_up_to(bytes@.take(index as int)),
            valid_up_to <= index,
        decreases bytes.len() - index,
    {
        evidence.push(bytes[index]);
        proof {
            run_take(Utf8Mark::Boundary, bytes@, index as int);
            assert(bytes@.take(index + 1).drop_last() =~= bytes@.take(index as int));
        }
        index += 1;
        if evidence.is_complete_and_valid() {
            valid_up_to = index;
        }
    }
    proof {
        assert(bytes@.take(bytes@.len() as int) =~= bytes@);
        utf8_boundary_is_validity(bytes@);
        utf8_valid_up_to_is_longest(bytes@);
    }
    Utf8Scan { valid_up_to, rejected: evidence.is_rejected() }
}

} // verus!
