//! What the references of a replacement template promise, said of characters alone.

use crate::edit::pattern;
use crate::edit::pattern::{ReferenceSpec, TokenSpec};
use crate::text;
use crate::text::laws::{index_found, index_shifts};
use vstd::prelude::*;

verus! {

proof fn word_shifts(chars: Seq<char>, by: int, from: int)
    requires
        0 <= by <= chars.len(),
        0 <= from,
    ensures
        pattern::word_end(chars, from + by) == pattern::word_end(chars.skip(by), from) + by,
        from <= pattern::word_end(chars.skip(by), from),
        from <= chars.len() - by ==> pattern::word_end(chars.skip(by), from) <= chars.len() - by,
    decreases chars.len() - by - from,
{
    let tail = chars.skip(by);
    if from < tail.len() {
        assert(tail[from] == chars[from + by]);
        if pattern::is_word(tail[from]) {
            word_shifts(chars, by, from + 1);
        }
    }
}

proof fn tokens_shift(chars: Seq<char>, by: int, cursor: int)
    requires
        0 <= by <= chars.len(),
        0 <= cursor,
    ensures
        pattern::tokens_from(chars, cursor + by) == pattern::tokens_from(chars.skip(by), cursor),
    decreases chars.len() - by - cursor,
{
    let tail = chars.skip(by);
    index_shifts(chars, by, cursor, '$');
    text::next_index_bounds(tail, cursor, '$');
    if let Some(start) = text::next_index(tail, cursor, '$') {
        if start + 1 < tail.len() {
            assert(tail[start + 1] == chars[start + by + 1]);
            index_shifts(chars, by, start + 2, '}');
            text::next_index_bounds(tail, start + 2, '}');
            word_shifts(chars, by, start + 1);
            if tail[start + 1] == '$' {
                tokens_shift(chars, by, start + 2);
            } else if tail[start + 1] == '{' {
                match text::next_index(tail, start + 2, '}') {
                    None => {
                        tokens_shift(chars, by, start + 1);
                    },
                    Some(close) => {
                        tokens_shift(chars, by, close + 1);
                        assert(tail.subrange(start, close + 1) =~= chars.subrange(
                            start + by,
                            close + by + 1,
                        ));
                        assert(tail.subrange(start + 2, close) =~= chars.subrange(
                            start + by + 2,
                            close + by,
                        ));
                    },
                }
            } else {
                let end = pattern::word_end(tail, start + 1);
                if end == start + 1 {
                    tokens_shift(chars, by, start + 1);
                } else {
                    tokens_shift(chars, by, end);
                    assert(tail.subrange(start, end) =~= chars.subrange(start + by, end + by));
                    assert(tail.subrange(start + 1, end) =~= chars.subrange(
                        start + by + 1,
                        end + by,
                    ));
                }
            }
        }
    }
}

proof fn word_found(chars: Seq<char>, from: int, end: int)
    requires
        0 <= from <= end <= chars.len(),
        forall|i: int| from <= i < end ==> pattern::is_word(chars[i]),
        end < chars.len() ==> !pattern::is_word(chars[end]),
    ensures
        pattern::word_end(chars, from) == end,
    decreases end - from,
{
    if from < end {
        word_found(chars, from + 1, end);
    }
}

/// Whether a character can be part of a name that stands without braces: a digit, a letter of the
/// alphabet or an underscore.
pub open spec fn in_a_name(character: char) -> bool {
    ||| '0' <= character <= '9'
    ||| 'A' <= character <= 'Z'
    ||| 'a' <= character <= 'z'
    ||| character == '_'
}

/// Text without a dollar sign refers to nothing, and neither does a doubled dollar sign; what comes
/// behind is read as if it stood alone.
pub proof fn plain_text_refers_to_nothing(plain: Seq<char>, rest: Seq<char>)
    requires
        forall|i: int| 0 <= i < plain.len() ==> plain[i] != '$',
    ensures
        pattern::tokens_from(plain + rest, 0) == pattern::tokens_from(rest, 0),
        pattern::tokens_from(seq!['$', '$'] + rest, 0) == pattern::tokens_from(rest, 0),
        pattern::tokens_from(plain, 0).len() == 0,
{
    let whole = plain + rest;
    assert(whole.skip(plain.len() as int) =~= rest);
    tokens_shift(whole, plain.len() as int, 0);
    skip_plain(whole, 0, plain.len() as int);
    index_found(plain, 0, plain.len() as int, '$');
    let doubled = seq!['$', '$'] + rest;
    index_found(doubled, 0, 0, '$');
    assert(doubled.skip(2) =~= rest);
    tokens_shift(doubled, 2, 0);
}

proof fn skip_plain(chars: Seq<char>, from: int, to: int)
    requires
        0 <= from <= to <= chars.len(),
        forall|i: int| from <= i < to ==> chars[i] != '$',
    ensures
        text::next_index(chars, from, '$') == text::next_index(chars, to, '$'),
        pattern::tokens_from(chars, from) == pattern::tokens_from(chars, to),
    decreases to - from,
{
    if from < to {
        skip_plain(chars, from + 1, to);
    }
}

/// A dollar sign and a name refer to the group of that name; so do a dollar sign and the name in
/// braces, where the name may hold anything but a closing brace. A name without braces goes as far
/// as it can. What comes behind is read as if it stood alone.
pub proof fn names_refer_to_groups(name: Seq<char>, rest: Seq<char>)
    ensures
        !name.contains('}') ==> pattern::tokens_from(
            seq!['$', '{'] + name + seq!['}'] + rest,
            0,
        ) == seq![
            TokenSpec {
                token: seq!['$', '{'] + name + seq!['}'],
                reference: reference_of(name),
            },
        ] + pattern::tokens_from(rest, 0),
        name.len() > 0 && (forall|i: int| 0 <= i < name.len() ==> in_a_name(#[trigger] name[i]))
            && (rest.len() > 0 ==> !in_a_name(rest[0])) ==> pattern::tokens_from(
            seq!['$'] + name + rest,
            0,
        ) == seq![TokenSpec { token: seq!['$'] + name, reference: reference_of(name) }]
            + pattern::tokens_from(rest, 0),
{
    number_is_its_digits(name);
    if !name.contains('}') {
        let whole = seq!['$', '{'] + name + seq!['}'] + rest;
        let close: int = name.len() + 2int;
        index_found(whole, 0, 0, '$');
        assert forall|i: int| 2 <= i < close implies whole[i] != '}' by {
            assert(whole[i] == name[i - 2]);
            assert(name.contains(name[i - 2]));
        }
        index_found(whole, 2, close, '}');
        assert(whole.subrange(0, close + 1) =~= seq!['$', '{'] + name + seq!['}']);
        assert(whole.subrange(2, close) =~= name);
        assert(whole.skip(close + 1) =~= rest);
        tokens_shift(whole, close + 1, 0);
    }
    if name.len() > 0 && (forall|i: int| 0 <= i < name.len() ==> in_a_name(#[trigger] name[i]))
        && (rest.len() > 0 ==> !in_a_name(rest[0])) {
        let whole = seq!['$'] + name + rest;
        let end: int = name.len() + 1int;
        index_found(whole, 0, 0, '$');
        assert(whole[1] == name[0]);
        assert(in_a_name(name[0]));
        assert forall|i: int| 1 <= i < end implies pattern::is_word(whole[i]) by {
            assert(whole[i] == name[i - 1]);
            assert(in_a_name(name[i - 1]));
        }
        if end < whole.len() {
            assert(whole[end] == rest[0]);
        }
        word_found(whole, 1, end);
        assert(whole.subrange(0, end) =~= seq!['$'] + name);
        assert(whole.subrange(1, end) =~= name);
        assert(whole.skip(end) =~= rest);
        tokens_shift(whole, end, 0);
    }
}

/// A name without a plus sign at its begin.
pub open spec fn without_plus(name: Seq<char>) -> Seq<char> {
    if name.len() > 0 && name[0] == '+' {
        name.skip(1)
    } else {
        name
    }
}

/// Whether characters are decimal digits.
pub open spec fn all_digits(chars: Seq<char>) -> bool {
    forall|i: int| 0 <= i < chars.len() ==> '0' <= #[trigger] chars[i] <= '9'
}

/// What a name refers to: the group of a number, or of a name.
pub open spec fn reference_of(name: Seq<char>) -> ReferenceSpec {
    let digits = without_plus(name);
    if digits.len() > 0 && all_digits(digits) && text::laws::number_of(digits) <= usize::MAX {
        ReferenceSpec::Number(text::laws::number_of(digits) as nat)
    } else {
        ReferenceSpec::Named(name)
    }
}

proof fn number_is_its_digits(name: Seq<char>)
    ensures
        pattern::token_spec(name, name).reference == reference_of(name),
{
    if name.len() > 0 {
        assert(name.skip(1) =~= name.drop_first());
    }
    digits_have_a_value(without_plus(name));
}

proof fn digits_have_a_value(digits: Seq<char>)
    ensures
        pattern::digits_value(digits) == if all_digits(digits) {
            Some(text::laws::number_of(digits) as nat)
        } else {
            None
        },
        all_digits(digits) ==> text::laws::number_of(digits) >= 0,
    decreases digits.len(),
{
    if digits.len() > 0 {
        let rest = digits.drop_last();
        digits_have_a_value(rest);
        if all_digits(digits) {
            assert forall|i: int| 0 <= i < rest.len() implies '0' <= #[trigger] rest[i] <= '9' by {
                assert(rest[i] == digits[i]);
            }
            assert('0' <= digits[digits.len() - 1] <= '9');
        } else if all_digits(rest) {
            let i = choose|i: int|
                0 <= i < digits.len() && !('0' <= #[trigger] digits[i] <= '9');
            if i < rest.len() {
                assert(rest[i] == digits[i]);
            }
        }
    }
}

} // verus!
