//! Text building blocks: views of strings as character sequences, decimal rendering,
//! substring tests, and the escapes that keep a report entry on one line.

pub mod laws;

use vstd::prelude::*;
use vstd::string::*;
use vstd::utf8::*;

verus! {

/// `String::push` appends one character to the end of the string.
pub assume_specification[ String::push ](receiver: &mut String, character: char)
    ensures
        final(receiver)@ == old(receiver)@.push(character),
;

/// `char::from_u32` yields the character of a Unicode scalar value and `None` for every
/// other number, that is for surrogates and for values past U+10FFFF.
pub assume_specification[ char::from_u32 ](value: u32) -> (result: Option<char>)
    ensures
        result is Some <==> is_scalar(value),
        result matches Some(character) ==> character as u32 == value,
;

/// `String::from_utf8` accepts exactly the valid UTF-8 byte sequences and keeps the bytes.
#[verifier::external_body]
pub(crate) fn utf8_string(bytes: Vec<u8>) -> (result: Option<String>)
    ensures
        result is Some <==> valid_utf8(bytes@),
        result matches Some(text) ==> text@ == decode_utf8(bytes@),
{
    String::from_utf8(bytes).ok()
}

/// The characters of `text` in order.
pub fn chars_of(text: &str) -> (chars: Vec<char>)
    ensures
        chars@ == text@,
{
    let mut chars: Vec<char> = Vec::new();
    for character in iter: text.chars()
        invariant
            chars@ == iter.seq().take(iter.index()),
            iter.seq() == text@,
    {
        chars.push(character);
    }
    chars
}

/// The string made of `chars`.
pub fn string_of(chars: &[char]) -> (text: String)
    ensures
        text@ == chars@,
{
    let mut text = String::new();
    let mut index: usize = 0;
    while index < chars.len()
        invariant
            index <= chars.len(),
            text@ == chars@.take(index as int),
        decreases chars.len() - index,
    {
        text.push(chars[index]);
        index += 1;
    }
    assert(chars@.take(chars@.len() as int) == chars@);
    text
}

/// Whether two strings hold the same characters.
pub fn same_text(left: &str, right: &str) -> (same: bool)
    ensures
        same == (left@ == right@),
{
    let left_bytes = left.as_bytes();
    let right_bytes = right.as_bytes();
    let same = same_bytes(left_bytes, right_bytes);
    proof {
        encode_utf8_decode_utf8(left@);
        encode_utf8_decode_utf8(right@);
    }
    same
}

/// Whether two byte slices are equal.
pub fn same_bytes(left: &[u8], right: &[u8]) -> (same: bool)
    ensures
        same == (left@ == right@),
{
    if left.len() != right.len() {
        return false;
    }
    let mut index: usize = 0;
    while index < left.len()
        invariant
            index <= left.len(),
            left.len() == right.len(),
            forall|i: int| 0 <= i < index ==> left@[i] == right@[i],
        decreases left.len() - index,
    {
        if left[index] != right[index] {
            return false;
        }
        index += 1;
    }
    assert(left@ =~= right@);
    true
}

/// The decimal digit of a value below ten.
pub open spec fn digit_char(value: nat) -> char {
    if value == 0 {
        '0'
    } else if value == 1 {
        '1'
    } else if value == 2 {
        '2'
    } else if value == 3 {
        '3'
    } else if value == 4 {
        '4'
    } else if value == 5 {
        '5'
    } else if value == 6 {
        '6'
    } else if value == 7 {
        '7'
    } else if value == 8 {
        '8'
    } else {
        '9'
    }
}

/// The decimal rendering of a number, without sign or leading zeros.
pub open spec fn decimal(value: nat) -> Seq<char>
    decreases value,
{
    if value < 10 {
        seq![digit_char(value)]
    } else {
        decimal(value / 10).push(digit_char(value % 10))
    }
}

fn digit(value: u64) -> (character: char)
    requires
        value < 10,
    ensures
        character == digit_char(value as nat),
{
    if value == 0 {
        '0'
    } else if value == 1 {
        '1'
    } else if value == 2 {
        '2'
    } else if value == 3 {
        '3'
    } else if value == 4 {
        '4'
    } else if value == 5 {
        '5'
    } else if value == 6 {
        '6'
    } else if value == 7 {
        '7'
    } else if value == 8 {
        '8'
    } else {
        '9'
    }
}

/// Renders a number in decimal.
pub fn decimal_text(value: u64) -> (text: String)
    ensures
        text@ == decimal(value as nat),
    decreases value,
{
    let mut text = if value < 10 {
        String::new()
    } else {
        decimal_text(value / 10)
    };
    text.push(digit(value % 10));
    text
}

/// Whether `needle` starts at position `at` of `text`.
pub open spec fn occurs_at(text: Seq<char>, needle: Seq<char>, at: int) -> bool {
    0 <= at <= text.len() - needle.len() && text.subrange(at, at + needle.len()) == needle
}

/// Whether `needle` occurs somewhere in `text`.
pub open spec fn contains_text_spec(text: Seq<char>, needle: Seq<char>) -> bool {
    exists|at: int| occurs_at(text, needle, at)
}

fn chars_match_at(text: &[char], needle: &[char], at: usize) -> (found: bool)
    requires
        at <= text.len(),
    ensures
        found == occurs_at(text@, needle@, at as int),
{
    if text.len() - at < needle.len() {
        return false;
    }
    let mut index: usize = 0;
    while index < needle.len()
        invariant
            index <= needle.len(),
            at + needle.len() <= text.len(),
            forall|i: int| 0 <= i < index ==> text@[at + i] == needle@[i],
        decreases needle.len() - index,
    {
        if text[at + index] != needle[index] {
            assert(text@.subrange(at as int, at + needle@.len())[index as int] != needle@[index as int]);
            return false;
        }
        index += 1;
    }
    assert(text@.subrange(at as int, at + needle@.len()) =~= needle@);
    true
}

/// Whether `text` begins with `prefix`.
pub fn starts_with_text(text: &str, prefix: &str) -> (found: bool)
    ensures
        found == occurs_at(text@, prefix@, 0),
{
    let chars = chars_of(text);
    let needle = chars_of(prefix);
    chars_match_at(chars.as_slice(), needle.as_slice(), 0)
}

/// Whether `needle` occurs in `text`.
pub fn contains_text(text: &str, needle: &str) -> (found: bool)
    ensures
        found == contains_text_spec(text@, needle@),
{
    let chars = chars_of(text);
    let wanted = chars_of(needle);
    let mut at: usize = 0;
    while at <= chars.len()
        invariant
            at <= chars.len() + 1,
            chars@ == text@,
            wanted@ == needle@,
            forall|i: int| 0 <= i < at ==> !occurs_at(text@, needle@, i),
        decreases chars.len() + 1 - at,
    {
        if chars_match_at(chars.as_slice(), wanted.as_slice(), at) {
            return true;
        }
        if at == chars.len() {
            return false;
        }
        at += 1;
    }
    false
}

/// `text` with each carriage return and line feed spelled out, so that it stays on one line.
pub open spec fn single_line_spec(text: Seq<char>) -> Seq<char>
    decreases text.len(),
{
    if text.len() == 0 {
        Seq::empty()
    } else {
        let head = single_line_spec(text.drop_last());
        if text.last() == '\r' {
            head.push('\\').push('r')
        } else if text.last() == '\n' {
            head.push('\\').push('n')
        } else {
            head.push(text.last())
        }
    }
}

/// Spells out carriage returns and line feeds.
pub fn single_line(text: &str) -> (line: String)
    ensures
        line@ == single_line_spec(text@),
{
    let chars = chars_of(text);
    let mut line = String::new();
    let mut index: usize = 0;
    while index < chars.len()
        invariant
            index <= chars.len(),
            chars@ == text@,
            line@ == single_line_spec(chars@.take(index as int)),
        decreases chars.len() - index,
    {
        let character = chars[index];
        proof {
            assert(chars@.take(index + 1).drop_last() =~= chars@.take(index as int));
            assert(chars@.take(index + 1).last() == character);
        }
        if character == '\r' {
            line.push('\\');
            line.push('r');
        } else if character == '\n' {
            line.push('\\');
            line.push('n');
        } else {
            line.push(character);
        }
        index += 1;
    }
    assert(chars@.take(chars@.len() as int) =~= chars@);
    line
}

/// A text made single-line holds neither a line feed nor a carriage return.
pub proof fn single_line_has_no_break(text: Seq<char>)
    ensures
        forall|i: int|
            0 <= i < single_line_spec(text).len() ==> {
                &&& #[trigger] single_line_spec(text)[i] != '\n'
                &&& single_line_spec(text)[i] != '\r'
            },
    decreases text.len(),
{
    if text.len() > 0 {
        let head = single_line_spec(text.drop_last());
        single_line_has_no_break(text.drop_last());
        assert forall|i: int| 0 <= i < single_line_spec(text).len() implies {
            &&& #[trigger] single_line_spec(text)[i] != '\n'
            &&& single_line_spec(text)[i] != '\r'
        } by {
            if i < head.len() {
                assert(single_line_spec(text)[i] == head[i]);
            }
        }
    }
}

/// The first `n` characters of `text` with each CRLF pair and each single line feed written
/// `\n` and each other carriage return written `\r`.
pub open spec fn escaped_prefix(text: Seq<char>, n: nat) -> Seq<char>
    decreases n,
{
    if n == 0 || n > text.len() {
        Seq::empty()
    } else {
        let last = text[n - 1];
        if last == '\n' {
            let kept = if n >= 2 && text[n - 2] == '\r' {
                (n - 2) as nat
            } else {
                (n - 1) as nat
            };
            escaped_prefix(text, kept).push('\\').push('n')
        } else if last == '\r' {
            escaped_prefix(text, (n - 1) as nat).push('\\').push('r')
        } else {
            escaped_prefix(text, (n - 1) as nat).push(last)
        }
    }
}

/// `text` with its line breaks spelled out, a CRLF pair counting as one break.
pub open spec fn escaped_breaks(text: Seq<char>) -> Seq<char> {
    escaped_prefix(text, text.len())
}

/// Spells out line breaks, a CRLF pair as one.
pub fn escape_breaks(chars: &[char]) -> (escaped: Vec<char>)
    ensures
        escaped@ == escaped_breaks(chars@),
{
    let mut escaped: Vec<char> = Vec::new();
    let mut index: usize = 0;
    while index < chars.len()
        invariant
            index <= chars.len(),
            escaped@ == escaped_prefix(chars@, index as nat),
            0 < index < chars.len() && chars@[index - 1] == '\r' ==> chars@[index as int] != '\n',
        decreases chars.len() - index,
    {
        let character = chars[index];
        if character == '\r' {
            if index + 1 < chars.len() && chars[index + 1] == '\n' {
                escaped.push('\\');
                escaped.push('n');
                index += 2;
            } else {
                escaped.push('\\');
                escaped.push('r');
                index += 1;
            }
        } else {
            if character == '\n' {
                escaped.push('\\');
                escaped.push('n');
            } else {
                escaped.push(character);
            }
            index += 1;
        }
    }
    escaped
}

/// `lines` joined by line feeds.
pub open spec fn joined(lines: Seq<Seq<char>>, separator: Seq<char>) -> Seq<char>
    decreases lines.len(),
{
    if lines.len() == 0 {
        Seq::empty()
    } else if lines.len() == 1 {
        lines[0]
    } else {
        joined(lines.drop_last(), separator) + separator + lines.last()
    }
}

/// The character sequences of a slice of strings.
pub open spec fn views(lines: Seq<String>) -> Seq<Seq<char>> {
    lines.map(|i: int, line: String| line@)
}

/// Joins the first `count` strings with a separator between neighbours.
pub fn join_first(lines: &[String], count: usize, separator: &str) -> (text: String)
    requires
        count <= lines.len(),
    ensures
        text@ == joined(views(lines@.take(count as int)), separator@),
{
    let mut text = String::new();
    let mut index: usize = 0;
    while index < count
        invariant
            index <= count <= lines.len(),
            text@ == joined(views(lines@.take(index as int)), separator@),
        decreases count - index,
    {
        proof {
            let longer = views(lines@.take(index + 1));
            assert(longer.drop_last() =~= views(lines@.take(index as int)));
            assert(longer.last() == lines@[index as int]@);
        }
        if index > 0 {
            text.append(separator);
        }
        text.append(lines[index].as_str());
        proof {
            let longer = views(lines@.take(index + 1));
            if index == 0 {
                assert(text@ =~= longer[0]);
            }
        }
        index += 1;
    }
    text
}

/// Whether a character is ASCII white space as `char::is_ascii_whitespace` has it.
pub open spec fn is_ascii_space(character: char) -> bool {
    character == ' ' || character == '\t' || character == '\n' || character == '\u{c}'
        || character == '\r'
}

/// ASCII upper-case letters made lower case, everything else kept.
pub open spec fn ascii_lower(character: char) -> char {
    if 'A' <= character <= 'Z' {
        (character as u32 + 32) as char
    } else {
        character
    }
}

/// `text` with its ASCII letters made lower case.
pub open spec fn lowered(text: Seq<char>) -> Seq<char> {
    text.map(|i: int, character: char| ascii_lower(character))
}

fn lower_char(character: char) -> (result: char)
    ensures
        result == ascii_lower(character),
{
    if 'A' <= character && character <= 'Z' {
        let value: u8 = character as u8;
        (value + 32) as char
    } else {
        character
    }
}

/// Makes the ASCII letters of `chars` lower case.
pub fn lower_chars(chars: &[char]) -> (result: Vec<char>)
    ensures
        result@ == lowered(chars@),
{
    let mut result: Vec<char> = Vec::new();
    let mut index: usize = 0;
    while index < chars.len()
        invariant
            index <= chars.len(),
            result@ == lowered(chars@.take(index as int)),
        decreases chars.len() - index,
    {
        result.push(lower_char(chars[index]));
        proof {
            assert(lowered(chars@.take(index + 1)) =~= lowered(chars@.take(index as int)).push(
                ascii_lower(chars@[index as int]),
            ));
        }
        index += 1;
    }
    assert(chars@.take(chars@.len() as int) =~= chars@);
    result
}

/// Tenths of a mebibyte in `bytes`, rounded to nearest and ties to even.
pub open spec fn mib_tenths(bytes: nat) -> nat {
    let tenths = bytes * 10 / 0x10_0000;
    let rest = bytes * 10 % 0x10_0000;
    if 2 * rest > 0x10_0000 || (2 * rest == 0x10_0000 && tenths % 2 == 1) {
        tenths + 1
    } else {
        tenths
    }
}

/// A size in mebibytes with one decimal.
pub open spec fn mib(bytes: nat) -> Seq<char> {
    decimal(mib_tenths(bytes) / 10) + "."@ + decimal(mib_tenths(bytes) % 10)
}

/// Renders a size in mebibytes with one decimal.
pub fn mib_text(bytes: u64) -> (text: String)
    ensures
        text@ == mib(bytes as nat),
{
    let scaled: u128 = bytes as u128 * 10;
    let whole: u128 = scaled / 0x10_0000;
    let rest: u128 = scaled % 0x10_0000;
    let tenths: u128 = if 2 * rest > 0x10_0000 || (2 * rest == 0x10_0000 && whole % 2 == 1) {
        whole + 1
    } else {
        whole
    };
    let mut text = decimal_text((tenths / 10) as u64);
    text.append(".");
    text.append(decimal_text((tenths % 10) as u64).as_str());
    text
}

/// The first position from `from` on that holds `wanted`.
pub open spec fn next_index(chars: Seq<char>, from: int, wanted: char) -> Option<int>
    decreases chars.len() - from,
{
    if from < 0 || from >= chars.len() {
        None
    } else if chars[from] == wanted {
        Some(from)
    } else {
        next_index(chars, from + 1, wanted)
    }
}

/// A position found lies past the start and holds the character.
pub proof fn next_index_bounds(chars: Seq<char>, from: int, wanted: char)
    requires
        0 <= from,
    ensures
        next_index(chars, from, wanted) matches Some(at) ==> from <= at < chars.len() && chars[at]
            == wanted,
    decreases chars.len() - from,
{
    if from < chars.len() && chars[from] != wanted {
        next_index_bounds(chars, from + 1, wanted);
    }
}

/// Finds the first position from `from` on that holds `wanted`.
pub fn find_from(chars: &[char], from: usize, wanted: char) -> (result: Option<usize>)
    ensures
        match result {
            Some(at) => next_index(chars@, from as int, wanted) == Some(at as int) && from <= at
                < chars.len(),
            None => next_index(chars@, from as int, wanted) is None,
        },
{
    let mut index: usize = from;
    while index < chars.len()
        invariant
            from <= index,
            index <= chars.len() || index == from,
            next_index(chars@, from as int, wanted) == next_index(chars@, index as int, wanted),
        decreases chars.len() - index,
    {
        if chars[index] == wanted {
            return Some(index);
        }
        index += 1;
    }
    None
}

/// Whether a character is white space under Unicode.
pub open spec fn is_white_space(character: char) -> bool {
    let value = character as u32;
    ||| 0x09 <= value <= 0x0d
    ||| value == 0x20
    ||| value == 0x85
    ||| value == 0xa0
    ||| value == 0x1680
    ||| 0x2000 <= value <= 0x200a
    ||| value == 0x2028
    ||| value == 0x2029
    ||| value == 0x202f
    ||| value == 0x205f
    ||| value == 0x3000
}

fn white_space(character: char) -> (result: bool)
    ensures
        result == is_white_space(character),
{
    let value: u32 = character as u32;
    (0x09 <= value && value <= 0x0d) || value == 0x20 || value == 0x85 || value == 0xa0 || value
        == 0x1680 || (0x2000 <= value && value <= 0x200a) || value == 0x2028 || value == 0x2029
        || value == 0x202f || value == 0x205f || value == 0x3000
}

/// A text without the white space at its end.
pub open spec fn trimmed_end(text: Seq<char>) -> Seq<char>
    decreases text.len(),
{
    if text.len() > 0 && is_white_space(text.last()) {
        trimmed_end(text.drop_last())
    } else {
        text
    }
}

/// A text without the white space at its start.
pub open spec fn trimmed_start(text: Seq<char>) -> Seq<char>
    decreases text.len(),
{
    if text.len() > 0 && is_white_space(text[0]) {
        trimmed_start(text.drop_first())
    } else {
        text
    }
}

/// Trims white space from both ends of `chars`.
pub fn trim_chars(chars: &[char]) -> (trimmed: &[char])
    ensures
        trimmed@ == trimmed_end(trimmed_start(chars@)),
{
    let mut start: usize = 0;
    assert(chars@.skip(0) =~= chars@);
    while start < chars.len() && white_space(chars[start])
        invariant
            start <= chars.len(),
            trimmed_start(chars@) == trimmed_start(chars@.skip(start as int)),
        decreases chars.len() - start,
    {
        assert(chars@.skip(start as int).drop_first() =~= chars@.skip(start + 1));
        start += 1;
    }
    let ghost kept = chars@.skip(start as int);
    let mut end: usize = chars.len();
    assert(chars@.subrange(start as int, end as int) =~= kept);
    while end > start && white_space(chars[end - 1])
        invariant
            start <= end <= chars.len(),
            trimmed_end(kept) == trimmed_end(chars@.subrange(start as int, end as int)),
        decreases end - start,
    {
        assert(chars@.subrange(start as int, end as int).drop_last() =~= chars@.subrange(
            start as int,
            end - 1,
        ));
        end -= 1;
    }
    vstd::slice::slice_subrange(chars, start, end)
}

/// The pieces between separators.
pub open spec fn pieces(text: Seq<char>, separator: char) -> Seq<Seq<char>>
    decreases text.len(),
{
    if text.len() == 0 {
        seq![Seq::empty()]
    } else {
        let before = pieces(text.drop_last(), separator);
        if text.last() == separator {
            before.push(Seq::empty())
        } else {
            before.drop_last().push(before.last().push(text.last()))
        }
    }
}

/// Splits at every separator.
pub fn split_at_char(text: &str, separator: char) -> (parts: Vec<String>)
    ensures
        views(parts@) == pieces(text@, separator),
{
    let chars = chars_of(text);
    let mut parts: Vec<String> = Vec::new();
    let mut last = String::new();
    let mut index: usize = 0;
    assert(views(parts@).push(last@) =~= pieces(chars@.take(0), separator));
    while index < chars.len()
        invariant
            index <= chars.len(),
            chars@ == text@,
            views(parts@).push(last@) == pieces(chars@.take(index as int), separator),
        decreases chars.len() - index,
    {
        let character = chars[index];
        let ghost before = views(parts@).push(last@);
        proof {
            assert(chars@.take(index + 1).drop_last() =~= chars@.take(index as int));
            assert(chars@.take(index + 1).last() == character);
            assert(before.drop_last() =~= views(parts@));
        }
        if character == separator {
            let ghost held = parts@;
            let ghost shown = last@;
            parts.push(last);
            last = String::new();
            assert(views(parts@) =~= views(held).push(shown));
            assert(last@ =~= Seq::<char>::empty());
        } else {
            last.push(character);
        }
        index += 1;
    }
    let ghost held = parts@;
    let ghost shown = last@;
    parts.push(last);
    proof {
        assert(views(parts@) =~= views(held).push(shown));
        assert(chars@.take(chars@.len() as int) =~= chars@);
    }
    parts
}

} // verus!
