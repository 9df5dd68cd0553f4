//! What the environment of a command promises, said of names, values and entries alone.

use crate::environment;
use crate::environment::{Platform, VariableSpec};
use crate::text;
use crate::text::laws::{index_found, index_shifts};
use vstd::prelude::*;
use vstd::string::*;
use vstd::utf8::*;

verus! {

/// The value of a variable, if it is there.
pub open spec fn value_of(variables: Seq<VariableSpec>, name: Seq<u8>, platform: Platform) -> Option<
    Seq<u8>,
> {
    match environment::position(variables, name, platform) {
        Some(at) => Some(variables[at].value),
        None => None,
    }
}

proof fn same_position(
    left: Seq<VariableSpec>,
    right: Seq<VariableSpec>,
    name: Seq<u8>,
    platform: Platform,
)
    requires
        left.len() <= right.len(),
        forall|i: int| 0 <= i < left.len() ==> left[i].name == right[i].name,
        forall|i: int|
            left.len() <= i < right.len() ==> !environment::same_name(
                (#[trigger] right[i]).name,
                name,
                platform,
            ),
    ensures
        environment::position(left, name, platform) == environment::position(
            right,
            name,
            platform,
        ),
    decreases right.len(),
{
    if right.len() > 0 {
        let shorter = right.drop_last();
        assert forall|i: int| 0 <= i < shorter.len() implies shorter[i] == right[i] by {}
        if left.len() == right.len() {
            let rest = left.drop_last();
            assert forall|i: int| 0 <= i < rest.len() implies rest[i].name == shorter[i].name by {
                assert(left[i].name == right[i].name);
            }
            same_position(rest, shorter, name, platform);
            assert(left[left.len() - 1].name == right[right.len() - 1].name);
        } else {
            assert forall|i: int|
                left.len() <= i < shorter.len() implies !environment::same_name(
                (#[trigger] shorter[i]).name,
                name,
                platform,
            ) by {
                assert(shorter[i] == right[i]);
            }
            same_position(left, shorter, name, platform);
            assert(!environment::same_name(right[right.len() - 1].name, name, platform));
        }
    }
}

proof fn other_names_stay(
    merged: Seq<VariableSpec>,
    host: VariableSpec,
    name: Seq<u8>,
    platform: Platform,
)
    requires
        !environment::same_name(host.name, name, platform),
    ensures
        value_of(environment::laid_over(merged, host, platform), name, platform) == value_of(
            merged,
            name,
            platform,
        ),
{
    let after = environment::laid_over(merged, host, platform);
    environment::position_is_first(merged, host.name, platform);
    environment::position_is_first(merged, name, platform);
    same_position(merged, after, name, platform);
    if let Some(at) = environment::position(merged, host.name, platform) {
        if let Some(own) = environment::position(merged, name, platform) {
            if at == own {
                assert(environment::same_name(host.name, name, platform));
            }
        }
    }
}

/// A persisted variable that the host does not have keeps its value: of repeated ones the first.
pub proof fn variables_that_only_the_machine_has_stay(
    persisted: Seq<VariableSpec>,
    host: Seq<VariableSpec>,
    name: Seq<u8>,
    platform: Platform,
)
    requires
        forall|i: int|
            0 <= i < host.len() ==> !environment::same_name(
                (#[trigger] host[i]).name,
                name,
                platform,
            ),
    ensures
        value_of(environment::overlay_spec(persisted, host, platform), name, platform) == value_of(
            persisted,
            name,
            platform,
        ),
{
    first_keeps_values(persisted, name, platform);
    laying_others_keeps(environment::first_of_each(persisted, platform), host, name, platform);
}

proof fn laying_others_keeps(
    merged: Seq<VariableSpec>,
    host: Seq<VariableSpec>,
    name: Seq<u8>,
    platform: Platform,
)
    requires
        forall|i: int|
            0 <= i < host.len() ==> !environment::same_name(
                (#[trigger] host[i]).name,
                name,
                platform,
            ),
    ensures
        value_of(environment::all_laid_over(merged, host, platform), name, platform) == value_of(
            merged,
            name,
            platform,
        ),
    decreases host.len(),
{
    if host.len() > 0 {
        let rest = host.drop_last();
        assert forall|i: int| 0 <= i < rest.len() implies !environment::same_name(
            (#[trigger] rest[i]).name,
            name,
            platform,
        ) by {
            assert(rest[i] == host[i]);
        }
        laying_others_keeps(merged, rest, name, platform);
        assert(!environment::same_name(host[host.len() - 1].name, name, platform));
        other_names_stay(
            environment::all_laid_over(merged, rest, platform),
            host.last(),
            name,
            platform,
        );
    }
}

proof fn first_keeps_values(variables: Seq<VariableSpec>, name: Seq<u8>, platform: Platform)
    ensures
        value_of(environment::first_of_each(variables, platform), name, platform) == value_of(
            variables,
            name,
            platform,
        ),
    decreases variables.len(),
{
    if variables.len() > 0 {
        let rest = variables.drop_last();
        first_keeps_values(rest, name, platform);
        let last = variables.last();
        let before = environment::first_of_each(rest, platform);
        let after = environment::first_of_each(variables, platform);
        environment::position_is_first(before, name, platform);
        environment::position_is_first(before, last.name, platform);
        environment::position_is_first(rest, name, platform);
        if environment::position(before, last.name, platform) is None {
            assert(after.drop_last() =~= before);
        } else if environment::same_name(last.name, name, platform) {
            let at = environment::position(before, last.name, platform)->Some_0;
            assert(environment::same_name(before[at].name, name, platform));
            assert(environment::position(before, name, platform) is Some);
        }
    }
}

/// A variable that the host has gets the value of the last one of its name; only a search path keeps
/// what the machine adds to it behind.
pub proof fn the_host_decides_its_variables(
    persisted: Seq<VariableSpec>,
    host: Seq<VariableSpec>,
    at: int,
    platform: Platform,
)
    requires
        0 <= at < host.len(),
        forall|i: int|
            at < i < host.len() ==> !environment::same_name(
                (#[trigger] host[i]).name,
                host[at].name,
                platform,
            ),
    ensures
        ({
            let merged = environment::overlay_spec(persisted, host, platform);
            match value_of(merged, host[at].name, platform) {
                None => false,
                Some(value) => if environment::same_name(
                    host[at].name,
                    encode_utf8("PATH"@),
                    platform,
                ) {
                    host[at].value.is_prefix_of(value)
                } else {
                    value == host[at].value
                },
            }
        }),
    decreases host.len(),
{
    if at == host.len() - 1 {
        environment::host_value_wins(persisted, host, platform);
    } else {
        let rest = host.drop_last();
        assert forall|i: int| at < i < rest.len() implies !environment::same_name(
            (#[trigger] rest[i]).name,
            rest[at].name,
            platform,
        ) by {
            assert(rest[i] == host[i]);
        }
        the_host_decides_its_variables(persisted, rest, at, platform);
        assert(!environment::same_name(host[host.len() - 1].name, host[at].name, platform));
        other_names_stay(
            environment::overlay_spec(persisted, rest, platform),
            host.last(),
            host[at].name,
            platform,
        );
    }
}

/// A command sees the host's variables alone where nothing is persisted, or where the opt-out says
/// so, and the merged ones else.
pub proof fn the_opt_out_leaves_the_host_alone(
    persisted: Seq<VariableSpec>,
    host: Seq<VariableSpec>,
    platform: Platform,
)
    ensures
        ({
            let merged = environment::overlay_spec(persisted, host, platform);
            let setting = value_of(
                merged,
                encode_utf8("FASTCTX_INHERIT_ENVIRONMENT"@),
                platform,
            );
            let seen = environment::command_variables_spec(persisted, host, platform);
            &&& persisted.len() == 0 ==> seen == host
            &&& persisted.len() > 0 && setting is None ==> seen == merged
            &&& setting == Some(encode_utf8("0"@)) || setting == Some(encode_utf8("false"@))
                || setting == Some(encode_utf8("off"@)) || setting == Some(encode_utf8("no"@))
                ==> seen == host
            &&& persisted.len() > 0 && setting == Some(encode_utf8("1"@)) ==> seen == merged
        }),
{
    plain_word("0"@);
    plain_word("false"@);
    plain_word("off"@);
    plain_word("no"@);
    plain_word("1"@);
    reveal_strlit("0");
    reveal_strlit("false");
    reveal_strlit("off");
    reveal_strlit("no");
    reveal_strlit("1");
    assert(text::lowered("0"@) =~= "0"@);
    assert(text::lowered("false"@) =~= "false"@);
    assert(text::lowered("off"@) =~= "off"@);
    assert(text::lowered("no"@) =~= "no"@);
    assert(text::lowered("1"@) =~= "1"@);
    assert("1"@[0] != "0"@[0]);
}

proof fn plain_word(word: Seq<char>)
    ensures
        environment::as_text(encode_utf8(word)) == Some(word),
        word.len() > 0 && !text::is_white_space(word[0]) && !text::is_white_space(word.last())
            ==> text::trimmed_end(text::trimmed_start(word)) == word,
{
    encode_utf8_valid_utf8(word);
    encode_utf8_decode_utf8(word);
}

/// A search path separates its entries by a semicolon on Windows and a colon elsewhere, and names of
/// variables ignore the case of ASCII letters on Windows alone.
pub proof fn platforms_differ(left: Seq<u8>, right: Seq<u8>)
    ensures
        (Platform { windows: true }).separator() == ';',
        (Platform { windows: false }).separator() == ':',
        environment::same_name(left, right, Platform { windows: false }) <==> left == right,
        environment::same_name(left, right, Platform { windows: true }) <==> left.len()
            == right.len() && forall|i: int|
            0 <= i < left.len() ==> {
                ||| #[trigger] left[i] == right[i]
                ||| 0x41 <= left[i] <= 0x5a && right[i] == left[i] + 0x20
                ||| 0x41 <= right[i] <= 0x5a && left[i] == right[i] + 0x20
            },
{
    let small = environment::bytes_lower(left);
    let other = environment::bytes_lower(right);
    if small == other {
        assert(small.len() == left.len() && other.len() == right.len());
        assert forall|i: int| 0 <= i < left.len() implies {
            ||| #[trigger] left[i] == right[i]
            ||| 0x41 <= left[i] <= 0x5a && right[i] == left[i] + 0x20
            ||| 0x41 <= right[i] <= 0x5a && left[i] == right[i] + 0x20
        } by {
            assert(small[i] == other[i]);
        }
    }
    if left.len() == right.len() && (forall|i: int|
        0 <= i < left.len() ==> {
            ||| #[trigger] left[i] == right[i]
            ||| 0x41 <= left[i] <= 0x5a && right[i] == left[i] + 0x20
            ||| 0x41 <= right[i] <= 0x5a && left[i] == right[i] + 0x20
        }) {
        assert(small =~= other);
    }
}

proof fn one_more_piece(whole: Seq<char>, separator: char, entry: Seq<char>)
    requires
        !entry.contains(separator),
    ensures
        text::pieces(whole + seq![separator] + entry, separator) == text::pieces(
            whole,
            separator,
        ).push(entry),
        text::pieces(entry, separator) == seq![entry],
        text::pieces(whole, separator).len() > 0,
    decreases entry.len(),
{
    text::laws::pieces_join_to_the_text(whole, separator);
    let before = text::pieces(whole, separator);
    let all = whole + seq![separator] + entry;
    if entry.len() == 0 {
        assert(all.drop_last() =~= whole);
        assert(all.last() == separator);
        assert(entry =~= Seq::<char>::empty());
        assert(text::pieces(all, separator) =~= before.push(entry));
        assert(text::pieces(entry, separator) =~= seq![entry]);
    } else {
        let shorter = entry.drop_last();
        assert(entry.contains(entry.last()));
        if shorter.contains(separator) {
            let i = shorter.index_of(separator);
            assert(entry[i] == separator);
        }
        one_more_piece(whole, separator, shorter);
        assert(all.drop_last() =~= whole + seq![separator] + shorter);
        assert(shorter.push(entry.last()) =~= entry);
        assert(text::pieces(all, separator) =~= before.push(entry));
        assert(text::pieces(entry, separator) =~= seq![entry]);
    }
}

/// The entries that a search path lacks: those that are not empty and that it does not have, also
/// when written a little differently.
pub open spec fn lacking(host: Seq<Seq<char>>, more: Seq<Seq<char>>, platform: Platform) -> Seq<
    Seq<char>,
> {
    more.filter(
        |entry: Seq<char>|
            environment::comparable(entry, platform).len() > 0 && forall|i: int|
                0 <= i < host.len() ==> environment::comparable(#[trigger] host[i], platform)
                    != environment::comparable(entry, platform),
    )
}

proof fn entries_are_added(
    host: Seq<char>,
    entries: Seq<Seq<char>>,
    platform: Platform,
)
    requires
        host.len() > 0,
        forall|i: int|
            0 <= i < entries.len() ==> !(#[trigger] entries[i]).contains(platform.separator()),
    ensures
        ({
            let own = text::pieces(host, platform.separator());
            let after = environment::with_entries(
                encode_utf8(host),
                environment::comparables(own, platform),
                entries,
                platform,
            );
            &&& environment::as_text(after) matches Some(path)
            &&& path.len() > 0
            &&& after == encode_utf8(path)
            &&& text::pieces(path, platform.separator()) == own + lacking(own, entries, platform)
        }),
    decreases entries.len(),
{
    let separator = platform.separator();
    let own = text::pieces(host, separator);
    let known = environment::comparables(own, platform);
    reveal(Seq::filter);
    if entries.len() == 0 {
        encode_utf8_valid_utf8(host);
        encode_utf8_decode_utf8(host);
        assert(lacking(own, entries, platform) =~= Seq::<Seq<char>>::empty());
        assert(own + lacking(own, entries, platform) =~= own);
    } else {
        let rest = entries.drop_last();
        assert forall|i: int| 0 <= i < rest.len() implies !(#[trigger] rest[i]).contains(
            separator,
        ) by {
            assert(rest[i] == entries[i]);
        }
        entries_are_added(host, rest, platform);
        let entry = entries.last();
        assert(!entries[entries.len() - 1].contains(separator));
        let before = environment::with_entries(encode_utf8(host), known, rest, platform);
        let path = environment::as_text(before)->Some_0;
        let form = environment::comparable(entry, platform);
        let absent = forall|i: int|
            0 <= i < own.len() ==> environment::comparable(#[trigger] own[i], platform) != form;
        assert(known.contains(form) <==> !absent) by {
            if known.contains(form) {
                let i = known.index_of(form);
                assert(environment::comparable(own[i], platform) == form);
            }
            if !absent {
                let i = choose|i: int|
                    0 <= i < own.len() && environment::comparable(#[trigger] own[i], platform)
                        == form;
                assert(known[i] == form);
            }
        }
        let fewer = lacking(own, rest, platform);
        let more = lacking(own, entries, platform);
        if form.len() > 0 && absent {
            assert(more == fewer.push(entry));
            let longer = path + seq![separator] + entry;
            crate::encoding::utf8::encode_utf8_concat(path, seq![separator]);
            crate::encoding::utf8::encode_utf8_concat(path + seq![separator], entry);
            encode_utf8_valid_utf8(longer);
            encode_utf8_decode_utf8(longer);
            one_more_piece(path, separator, entry);
            path_is_not_empty(path);
            assert((own + fewer).push(entry) =~= own + more);
        } else {
            assert(more == fewer);
        }
    }
}

proof fn path_is_not_empty(path: Seq<char>)
    requires
        path.len() > 0,
    ensures
        encode_utf8(path).len() > 0,
{
    crate::edit::replacement::last_byte_of(path);
}

/// A merged search path has the entries of the host first, in their order, and then the entries of
/// the machine that it lacks, in theirs.
pub proof fn a_search_path_gains_what_it_lacks(
    host: Seq<char>,
    persisted: Seq<char>,
    platform: Platform,
)
    requires
        host.len() > 0,
    ensures
        ({
            let own = text::pieces(host, platform.separator());
            let more = text::pieces(persisted, platform.separator());
            let after = environment::joined_path(
                encode_utf8(host),
                encode_utf8(persisted),
                platform,
            );
            &&& environment::as_text(after) matches Some(path)
            &&& text::pieces(path, platform.separator()) == own + lacking(own, more, platform)
        }),
{
    encode_utf8_valid_utf8(host);
    encode_utf8_decode_utf8(host);
    encode_utf8_valid_utf8(persisted);
    encode_utf8_decode_utf8(persisted);
    text::laws::pieces_join_to_the_text(persisted, platform.separator());
    entries_are_added(host, text::pieces(persisted, platform.separator()), platform);
}

proof fn expansion_shifts(
    chars: Seq<char>,
    by: int,
    cursor: int,
    lookup: Seq<VariableSpec>,
    platform: Platform,
)
    requires
        0 <= by <= chars.len(),
        0 <= cursor <= chars.len() - by,
    ensures
        environment::expanded_from(chars, cursor + by, lookup, platform)
            == environment::expanded_from(chars.skip(by), cursor, lookup, platform),
    decreases chars.len() - by - cursor,
{
    let tail = chars.skip(by);
    index_shifts(chars, by, cursor, '%');
    text::next_index_bounds(tail, cursor, '%');
    assert(chars.skip(cursor + by) =~= tail.skip(cursor));
    if let Some(start) = text::next_index(tail, cursor, '%') {
        index_shifts(chars, by, start + 1, '%');
        text::next_index_bounds(tail, start + 1, '%');
        if let Some(end) = text::next_index(tail, start + 1, '%') {
            assert(tail.subrange(start + 1, end) =~= chars.subrange(start + by + 1, end + by));
            assert(tail.subrange(start, end + 1) =~= chars.subrange(start + by, end + by + 1));
            assert(tail.subrange(cursor, start) =~= chars.subrange(cursor + by, start + by));
            expansion_shifts(chars, by, end + 1, lookup, platform);
        }
    }
}

/// A name between percent signs is replaced by the value of that variable, or stays where there is
/// none; the text before it stays, and what comes behind is read as if it stood alone. A text
/// without percent signs stays as it is.
pub proof fn named_variables_are_filled_in(
    plain: Seq<char>,
    name: Seq<char>,
    rest: Seq<char>,
    lookup: Seq<VariableSpec>,
    platform: Platform,
)
    requires
        !plain.contains('%'),
        !name.contains('%'),
    ensures
        environment::expanded(encode_utf8(plain), lookup, platform) == encode_utf8(plain),
        environment::expanded(
            encode_utf8(plain + seq!['%'] + name + seq!['%'] + rest),
            lookup,
            platform,
        ) == encode_utf8(plain) + (match value_of(lookup, encode_utf8(name), platform) {
            Some(value) => value,
            None => encode_utf8(seq!['%'] + name + seq!['%']),
        }) + environment::expanded(encode_utf8(rest), lookup, platform),
{
    let whole = plain + seq!['%'] + name + seq!['%'] + rest;
    plain_word(plain);
    plain_word(whole);
    plain_word(rest);
    assert forall|i: int| 0 <= i < plain.len() implies plain[i] != '%' by {
        assert(plain.contains(plain[i]));
    }
    index_found(plain, 0, plain.len() as int, '%');
    assert(plain.skip(0) =~= plain);
    let start = plain.len() as int;
    let end = start + 1 + name.len();
    assert forall|i: int| 0 <= i < start implies whole[i] != '%' by {
        assert(whole[i] == plain[i]);
    }
    index_found(whole, 0, start, '%');
    assert forall|i: int| start + 1 <= i < end implies whole[i] != '%' by {
        assert(whole[i] == name[i - start - 1]);
        assert(name.contains(name[i - start - 1]));
    }
    index_found(whole, start + 1, end, '%');
    assert(whole.subrange(0, start) =~= plain);
    assert(whole.subrange(start + 1, end) =~= name);
    assert(whole.subrange(start, end + 1) =~= seq!['%'] + name + seq!['%']);
    assert(whole.skip(end + 1) =~= rest);
    expansion_shifts(whole, end + 1, 0, lookup, platform);
}

} // verus!
