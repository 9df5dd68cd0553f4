//! What the text building blocks promise, said of characters and numbers alone.

use crate::text;
use vstd::prelude::*;
use vstd::string::*;

verus! {

/// The number that a sequence of decimal digits stands for.
pub open spec fn number_of(digits: Seq<char>) -> int
    decreases digits.len(),
{
    if digits.len() == 0 {
        0
    } else {
        10 * number_of(digits.drop_last()) + (digits.last() as int - '0' as int)
    }
}

/// A rendered number reads back as that number; it is made of digits, without leading zeros.
pub proof fn decimals_read_back(value: nat)
    ensures
        number_of(text::decimal(value)) == value,
        text::decimal(value).len() > 0,
        forall|i: int|
            0 <= i < text::decimal(value).len() ==> '0' <= #[trigger] text::decimal(value)[i]
                <= '9',
        value > 0 ==> text::decimal(value)[0] != '0',
        value == 0 ==> text::decimal(value).len() == 1,
    decreases value,
{
    if value < 10 {
        let digits = text::decimal(value);
        assert(digits.drop_last() =~= Seq::<char>::empty());
        assert(number_of(digits.drop_last()) == 0);
    } else {
        decimals_read_back(value / 10);
        let digits = text::decimal(value);
        assert(digits.drop_last() =~= text::decimal(value / 10));
        assert forall|i: int| 0 <= i < digits.len() implies '0' <= #[trigger] digits[i]
            <= '9' by {
            if i < digits.len() - 1 {
                assert(digits[i] == text::decimal(value / 10)[i]);
            }
        }
        assert(digits[0] == text::decimal(value / 10)[0]);
    }
}

proof fn escaped_same(whole: Seq<char>, head: Seq<char>, n: nat)
    requires
        n <= head.len() <= whole.len(),
        forall|i: int| 0 <= i < head.len() ==> head[i] == whole[i],
    ensures
        text::escaped_prefix(whole, n) == text::escaped_prefix(head, n),
    decreases n,
{
    if n > 0 {
        escaped_same(whole, head, (n - 1) as nat);
        if n > 1 {
            escaped_same(whole, head, (n - 2) as nat);
        }
    }
}

proof fn escaped_parts(whole: Seq<char>, cut: int, n: nat)
    requires
        0 <= cut <= n <= whole.len(),
        !(0 < cut < whole.len() && whole[cut - 1] == '\r' && whole[cut] == '\n'),
    ensures
        text::escaped_prefix(whole, n) == text::escaped_breaks(whole.take(cut))
            + text::escaped_prefix(whole.skip(cut), (n - cut) as nat),
    decreases n,
{
    let head = whole.take(cut);
    let tail = whole.skip(cut);
    let first = text::escaped_breaks(head);
    if n == cut {
        escaped_same(whole, head, n);
        assert(text::escaped_prefix(tail, 0) =~= Seq::<char>::empty());
        assert(first + Seq::<char>::empty() =~= first);
    } else {
        assert(tail[n - cut - 1] == whole[n - 1]);
        let last = whole[n - 1];
        if last == '\n' && n >= 2 && whole[n - 2] == '\r' {
            assert(n - 2 >= cut);
            assert(tail[n - cut - 2] == whole[n - 2]);
            escaped_parts(whole, cut, (n - 2) as nat);
        } else {
            if n - cut >= 2 {
                assert(tail[n - cut - 2] == whole[n - 2]);
            }
            escaped_parts(whole, cut, (n - 1) as nat);
        }
        assert(text::escaped_prefix(whole, n) =~= first + text::escaped_prefix(
            tail,
            (n - cut) as nat,
        ));
    }
}

/// Spelling out line breaks goes part by part: a CR LF pair and a line feed become `\n`, any
/// other carriage return `\r`, and every other character stays.
pub proof fn breaks_are_spelled_out(whole: Seq<char>, cut: int)
    requires
        0 <= cut <= whole.len(),
        !(0 < cut < whole.len() && whole[cut - 1] == '\r' && whole[cut] == '\n'),
    ensures
        text::escaped_breaks(whole) == text::escaped_breaks(whole.take(cut))
            + text::escaped_breaks(whole.skip(cut)),
        whole == seq!['\r', '\n'] ==> text::escaped_breaks(whole) == seq!['\\', 'n'],
        whole == seq!['\n'] ==> text::escaped_breaks(whole) == seq!['\\', 'n'],
        whole == seq!['\r'] ==> text::escaped_breaks(whole) == seq!['\\', 'r'],
        (forall|i: int| 0 <= i < whole.len() ==> whole[i] != '\n' && whole[i] != '\r')
            ==> text::escaped_breaks(whole) == whole,
{
    escaped_parts(whole, cut, whole.len());
    assert(text::escaped_prefix(whole, 0) =~= Seq::<char>::empty());
    if whole == seq!['\r', '\n'] {
        assert(text::escaped_breaks(whole) =~= seq!['\\', 'n']);
    }
    if whole == seq!['\n'] {
        assert(text::escaped_breaks(whole) =~= seq!['\\', 'n']);
    }
    if whole == seq!['\r'] {
        assert(text::escaped_breaks(whole) =~= seq!['\\', 'r']);
    }
    if forall|i: int| 0 <= i < whole.len() ==> whole[i] != '\n' && whole[i] != '\r' {
        escaped_plain(whole, whole.len());
        assert(whole.take(whole.len() as int) =~= whole);
    }
}

proof fn escaped_plain(whole: Seq<char>, n: nat)
    requires
        n <= whole.len(),
        forall|i: int| 0 <= i < whole.len() ==> whole[i] != '\n' && whole[i] != '\r',
    ensures
        text::escaped_prefix(whole, n) == whole.take(n as int),
    decreases n,
{
    if n > 0 {
        escaped_plain(whole, (n - 1) as nat);
        assert(whole.take(n as int) =~= whole.take(n - 1).push(whole[n - 1]));
    } else {
        assert(text::escaped_prefix(whole, n) =~= whole.take(0));
    }
}

/// A text put on one line goes part by part: a line feed becomes `\n`, a carriage return `\r`,
/// and every other character stays.
pub proof fn one_line_spells_out_breaks(left: Seq<char>, right: Seq<char>)
    ensures
        text::single_line_spec(left + right) == text::single_line_spec(left)
            + text::single_line_spec(right),
        right == seq!['\n'] ==> text::single_line_spec(right) == seq!['\\', 'n'],
        right == seq!['\r'] ==> text::single_line_spec(right) == seq!['\\', 'r'],
        (forall|i: int| 0 <= i < right.len() ==> right[i] != '\n' && right[i] != '\r')
            ==> text::single_line_spec(right) == right,
    decreases right.len(),
{
    if right.len() == 0 {
        assert(left + right =~= left);
        assert(text::single_line_spec(right) =~= Seq::<char>::empty());
        assert(text::single_line_spec(left) + text::single_line_spec(right)
            =~= text::single_line_spec(left));
        assert(text::single_line_spec(right) =~= right);
    } else {
        let rest = right.drop_last();
        one_line_spells_out_breaks(left, rest);
        assert((left + right).drop_last() =~= left + rest);
        assert(text::single_line_spec(left + right) =~= text::single_line_spec(left)
            + text::single_line_spec(right));
        if right.len() == 1 {
            assert(rest =~= Seq::<char>::empty());
            assert(text::single_line_spec(rest) =~= Seq::<char>::empty());
        }
        if right == seq!['\n'] {
            assert(text::single_line_spec(right) =~= seq!['\\', 'n']);
        }
        if right == seq!['\r'] {
            assert(text::single_line_spec(right) =~= seq!['\\', 'r']);
        }
        if forall|i: int| 0 <= i < right.len() ==> right[i] != '\n' && right[i] != '\r' {
            assert forall|i: int| 0 <= i < rest.len() implies rest[i] != '\n' && rest[i]
                != '\r' by {
                assert(rest[i] == right[i]);
            }
            assert(text::single_line_spec(right) =~= right);
        }
    }
}

/// Pieces put together again with the separator between them are the text, and no piece holds the
/// separator.
pub proof fn pieces_join_to_the_text(whole: Seq<char>, separator: char)
    ensures
        text::pieces(whole, separator).len() > 0,
        text::joined(text::pieces(whole, separator), seq![separator]) == whole,
        forall|i: int|
            0 <= i < text::pieces(whole, separator).len() ==> !(#[trigger] text::pieces(
                whole,
                separator,
            )[i]).contains(separator),
    decreases whole.len(),
{
    let all = text::pieces(whole, separator);
    let between = seq![separator];
    if whole.len() == 0 {
        assert(text::joined(all, between) =~= whole);
        assert(all[0] =~= Seq::<char>::empty());
    } else {
        let rest = whole.drop_last();
        pieces_join_to_the_text(rest, separator);
        let before = text::pieces(rest, separator);
        assert(rest.push(whole.last()) =~= whole);
        if whole.last() == separator {
            assert(all.drop_last() =~= before);
            assert(text::joined(all, between) =~= rest + between + Seq::<char>::empty());
            assert(text::joined(all, between) =~= whole);
            assert forall|i: int| 0 <= i < all.len() implies !(#[trigger] all[i]).contains(
                separator,
            ) by {
                if i < before.len() {
                    assert(all[i] == before[i]);
                } else {
                    assert(all[i] =~= Seq::<char>::empty());
                }
            }
        } else {
            assert(all.drop_last() =~= before.drop_last());
            let last = before.last();
            assert(text::joined(all, between) =~= text::joined(before, between).push(
                whole.last(),
            ));
            assert forall|i: int| 0 <= i < all.len() implies !(#[trigger] all[i]).contains(
                separator,
            ) by {
                if i < before.len() - 1 {
                    assert(all[i] == before[i]);
                } else {
                    assert(before[before.len() - 1] == last);
                    if all[i].contains(separator) {
                        let k = all[i].index_of(separator);
                        assert(last[k] == separator);
                    }
                }
            }
        }
    }
}

proof fn trimmed_end_is_a_part(whole: Seq<char>)
    ensures
        text::trimmed_end(whole).is_prefix_of(whole),
        text::trimmed_end(whole).len() > 0 ==> !text::is_white_space(
            text::trimmed_end(whole).last(),
        ),
        forall|i: int|
            text::trimmed_end(whole).len() <= i < whole.len() ==> text::is_white_space(
                #[trigger] whole[i],
            ),
    decreases whole.len(),
{
    if whole.len() > 0 && text::is_white_space(whole.last()) {
        trimmed_end_is_a_part(whole.drop_last());
        let kept = text::trimmed_end(whole);
        assert(kept =~= whole.take(kept.len() as int));
        assert forall|i: int| kept.len() <= i < whole.len() implies text::is_white_space(
            #[trigger] whole[i],
        ) by {
            if i < whole.len() - 1 {
                assert(whole.drop_last()[i] == whole[i]);
            }
        }
    } else {
        assert(whole =~= whole.take(whole.len() as int));
    }
}

proof fn trimmed_start_is_a_part(whole: Seq<char>)
    ensures
        text::trimmed_start(whole).len() <= whole.len(),
        text::trimmed_start(whole) == whole.skip(whole.len() - text::trimmed_start(whole).len()),
        text::trimmed_start(whole).len() > 0 ==> !text::is_white_space(
            text::trimmed_start(whole)[0],
        ),
        forall|i: int|
            0 <= i < whole.len() - text::trimmed_start(whole).len() ==> text::is_white_space(
                #[trigger] whole[i],
            ),
    decreases whole.len(),
{
    if whole.len() > 0 && text::is_white_space(whole[0]) {
        trimmed_start_is_a_part(whole.drop_first());
        let kept = text::trimmed_start(whole);
        assert(kept =~= whole.skip(whole.len() - kept.len()));
        assert forall|i: int| 0 <= i < whole.len() - kept.len() implies text::is_white_space(
            #[trigger] whole[i],
        ) by {
            if i > 0 {
                assert(whole.drop_first()[i - 1] == whole[i]);
            }
        }
    } else {
        assert(whole =~= whole.skip(0));
    }
}

/// Trimming takes white space away at both ends, all of it and nothing else.
pub proof fn trimming_takes_white_space_from_the_ends(whole: Seq<char>)
    ensures
        ({
            let from = whole.len() - text::trimmed_start(whole).len();
            let kept = text::trimmed_end(text::trimmed_start(whole));
            let to = from + kept.len();
            &&& 0 <= from <= to <= whole.len()
            &&& kept == whole.subrange(from, to)
            &&& kept.len() > 0 ==> !text::is_white_space(kept[0]) && !text::is_white_space(
                kept.last(),
            )
            &&& forall|i: int|
                0 <= i < from || to <= i < whole.len() ==> text::is_white_space(
                    #[trigger] whole[i],
                )
        }),
{
    trimmed_start_is_a_part(whole);
    let tail = text::trimmed_start(whole);
    trimmed_end_is_a_part(tail);
    let from = whole.len() - tail.len();
    let kept = text::trimmed_end(tail);
    assert(kept =~= whole.subrange(from, from + kept.len()));
    assert forall|i: int| from + kept.len() <= i < whole.len() implies text::is_white_space(
        #[trigger] whole[i],
    ) by {
        assert(tail[i - from] == whole[i]);
    }
    if kept.len() > 0 {
        assert(kept[0] == tail[0]);
    }
}

/// A size in mebibytes is written with one decimal that is off by no more than half a tenth.
pub proof fn sizes_are_rounded_to_tenths(bytes: nat)
    ensures
        ({
            let tenths = text::mib_tenths(bytes) as int;
            &&& -524288 <= 10 * bytes - 1048576 * tenths <= 524288
            &&& text::mib(bytes) == text::decimal((tenths / 10) as nat).push('.')
                + text::decimal((tenths % 10) as nat)
        }),
{
    reveal_strlit(".");
    let whole = text::decimal((text::mib_tenths(bytes) / 10) as nat);
    assert(whole + "."@ =~= whole.push('.'));
}

/// Joining puts the separator between each line and the next, and nowhere else.
pub proof fn joining_puts_the_separator_between(
    lines: Seq<Seq<char>>,
    line: Seq<char>,
    separator: Seq<char>,
)
    ensures
        text::joined(Seq::empty(), separator) == Seq::<char>::empty(),
        text::joined(seq![line], separator) == line,
        lines.len() > 0 ==> text::joined(lines.push(line), separator) == text::joined(
            lines,
            separator,
        ) + separator + line,
{
    assert(lines.push(line).drop_last() =~= lines);
}

/// A character is found in a text where it is found in what is left of it, so much further on.
pub proof fn index_shifts(chars: Seq<char>, by: int, from: int, wanted: char)
    requires
        0 <= by <= chars.len(),
        0 <= from,
    ensures
        text::next_index(chars, from + by, wanted) == match text::next_index(
            chars.skip(by),
            from,
            wanted,
        ) {
            Some(at) => Some(at + by),
            None => None,
        },
    decreases chars.len() - by - from,
{
    let tail = chars.skip(by);
    if from < tail.len() {
        assert(tail[from] == chars[from + by]);
        if tail[from] != wanted {
            index_shifts(chars, by, from + 1, wanted);
        }
    }
}

/// A character is found at its first place from some place on, and nowhere where there is none.
pub proof fn index_found(chars: Seq<char>, from: int, at: int, wanted: char)
    requires
        0 <= from <= at <= chars.len(),
        forall|i: int| from <= i < at ==> chars[i] != wanted,
        at < chars.len() ==> chars[at] == wanted,
    ensures
        text::next_index(chars, from, wanted) == if at < chars.len() {
            Some(at)
        } else {
            None
        },
    decreases at - from,
{
    if from < at {
        index_found(chars, from + 1, at, wanted);
    }
}

} // verus!
