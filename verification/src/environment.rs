//! The environment of the commands a user runs: what the machine persists, underneath what the
//! host provides.

pub mod laws;

use crate::text;
use crate::text::{
    chars_of, find_from, lower_chars, same_bytes, same_text, split_at_char, string_of, trim_chars,
    utf8_string,
};
use vstd::prelude::*;
use vstd::slice::{slice_subrange, slice_to_vec};
use vstd::string::*;
use vstd::utf8::*;

verus! {

/// The conventions of a platform.
#[derive(Clone, Copy, Debug, PartialEq, Eq, Structural)]
pub struct Platform {
    pub windows: bool,
}

impl Platform {
    /// What separates the entries of a search path.
    pub open spec fn separator(self) -> char {
        if self.windows {
            ';'
        } else {
            ':'
        }
    }

    /// What separates the entries of a search path.
    pub fn path_list_separator(self) -> (separator: char)
        ensures
            separator == self.separator(),
    {
        if self.windows {
            ';'
        } else {
            ':'
        }
    }
}

/// An environment variable. Name and value are what the platform holds, as bytes.
#[derive(Debug)]
pub struct Variable {
    pub name: Vec<u8>,
    pub value: Vec<u8>,
}

/// The mathematical value of a [`Variable`].
pub struct VariableSpec {
    pub name: Seq<u8>,
    pub value: Seq<u8>,
}

impl View for Variable {
    type V = VariableSpec;

    open spec fn view(&self) -> VariableSpec {
        VariableSpec { name: self.name@, value: self.value@ }
    }
}

/// The mathematical values of variables.
pub open spec fn variable_views(variables: Seq<Variable>) -> Seq<VariableSpec> {
    variables.map(|i: int, variable: Variable| variable@)
}

/// An ASCII upper-case letter made lower case.
pub open spec fn byte_lower(byte: u8) -> u8 {
    if 0x41 <= byte <= 0x5a {
        (byte + 0x20) as u8
    } else {
        byte
    }
}

/// The bytes with ASCII letters made lower case.
pub open spec fn bytes_lower(bytes: Seq<u8>) -> Seq<u8> {
    bytes.map(|i: int, byte: u8| byte_lower(byte))
}

/// Whether two names are the name of one variable.
pub open spec fn same_name(left: Seq<u8>, right: Seq<u8>, platform: Platform) -> bool {
    if platform.windows {
        bytes_lower(left) == bytes_lower(right)
    } else {
        left == right
    }
}

fn lower_byte(byte: u8) -> (result: u8)
    ensures
        result == byte_lower(byte),
{
    if 0x41 <= byte && byte <= 0x5a {
        byte + 0x20
    } else {
        byte
    }
}

/// Whether two names are the name of one variable.
pub fn environment_name_eq(left: &[u8], right: &[u8], platform: Platform) -> (same: bool)
    ensures
        same == same_name(left@, right@, platform),
{
    if !platform.windows {
        return same_bytes(left, right);
    }
    if left.len() != right.len() {
        assert(bytes_lower(left@).len() != bytes_lower(right@).len());
        return false;
    }
    let mut index: usize = 0;
    while index < left.len()
        invariant
            index <= left.len(),
            left.len() == right.len(),
            forall|i: int| 0 <= i < index ==> byte_lower(left@[i]) == byte_lower(right@[i]),
        decreases left.len() - index,
    {
        if lower_byte(left[index]) != lower_byte(right[index]) {
            assert(bytes_lower(left@)[index as int] != bytes_lower(right@)[index as int]);
            return false;
        }
        index += 1;
    }
    assert(bytes_lower(left@) =~= bytes_lower(right@));
    true
}

/// The first variable with a name.
pub open spec fn position(variables: Seq<VariableSpec>, name: Seq<u8>, platform: Platform) -> Option<
    int,
>
    decreases variables.len(),
{
    if variables.len() == 0 {
        None
    } else {
        match position(variables.drop_last(), name, platform) {
            Some(at) => Some(at),
            None => if same_name(variables.last().name, name, platform) {
                Some(variables.len() - 1)
            } else {
                None
            },
        }
    }
}

/// A position found holds the name, and no earlier one does; otherwise none does.
pub proof fn position_is_first(variables: Seq<VariableSpec>, name: Seq<u8>, platform: Platform)
    ensures
        match position(variables, name, platform) {
            Some(at) => {
                &&& 0 <= at < variables.len()
                &&& same_name(variables[at].name, name, platform)
                &&& forall|i: int|
                    0 <= i < at ==> !same_name((#[trigger] variables[i]).name, name, platform)
            },
            None => forall|i: int|
                0 <= i < variables.len() ==> !same_name(
                    (#[trigger] variables[i]).name,
                    name,
                    platform,
                ),
        },
    decreases variables.len(),
{
    if variables.len() > 0 {
        let rest = variables.drop_last();
        position_is_first(rest, name, platform);
        assert forall|i: int| 0 <= i < rest.len() implies rest[i] == #[trigger] variables[i] by {}
    }
}

fn find_variable(variables: &Vec<Variable>, name: &[u8], platform: Platform) -> (result: Option<
    usize,
>)
    ensures
        match result {
            Some(at) => position(variable_views(variables@), name@, platform) == Some(at as int)
                && at < variables@.len(),
            None => position(variable_views(variables@), name@, platform) is None,
        },
{
    let ghost shown = variable_views(variables@);
    let mut index: usize = 0;
    assert(shown.take(0) =~= Seq::<VariableSpec>::empty());
    while index < variables.len()
        invariant
            index <= variables.len(),
            shown == variable_views(variables@),
            position(shown.take(index as int), name@, platform) is None,
        decreases variables.len() - index,
    {
        proof {
            assert(shown.take(index + 1).drop_last() =~= shown.take(index as int));
            assert(shown.take(index + 1).last() == variables@[index as int]@);
        }
        if environment_name_eq(variables[index].name.as_slice(), name, platform) {
            proof {
                position_stays(shown, index + 1, name@, platform);
            }
            return Some(index);
        }
        index += 1;
    }
    assert(shown.take(shown.len() as int) =~= shown);
    None
}

proof fn position_stays(
    variables: Seq<VariableSpec>,
    count: int,
    name: Seq<u8>,
    platform: Platform,
)
    requires
        0 <= count <= variables.len(),
        position(variables.take(count), name, platform) is Some,
    ensures
        position(variables, name, platform) == position(variables.take(count), name, platform),
    decreases variables.len(),
{
    if count < variables.len() {
        assert(variables.drop_last().take(count) =~= variables.take(count));
        position_stays(variables.drop_last(), count, name, platform);
    } else {
        assert(variables.take(count) =~= variables);
    }
}

/// The text of bytes that are text.
pub open spec fn as_text(bytes: Seq<u8>) -> Option<Seq<char>> {
    if valid_utf8(bytes) {
        Some(decode_utf8(bytes))
    } else {
        None
    }
}

fn to_text(bytes: &[u8]) -> (result: Option<String>)
    ensures
        match result {
            Some(value) => as_text(bytes@) == Some(value@),
            None => as_text(bytes@) is None,
        },
{
    utf8_string(slice_to_vec(bytes))
}

/// A text without the slashes at its end.
pub open spec fn without_trailing_slashes(text: Seq<char>) -> Seq<char>
    decreases text.len(),
{
    if text.len() > 0 && (text.last() == '/' || text.last() == '\\') {
        without_trailing_slashes(text.drop_last())
    } else {
        text
    }
}

/// A character of a search-path entry as entries are compared by.
pub open spec fn comparable_char(character: char, platform: Platform) -> char {
    if !platform.windows {
        character
    } else if character == '\\' {
        '/'
    } else {
        text::ascii_lower(character)
    }
}

/// A search-path entry as entries are compared by: without white space around it or slashes at
/// its end, and on Windows without regard to case and to the kind of slash.
pub open spec fn comparable(entry: Seq<char>, platform: Platform) -> Seq<char> {
    without_trailing_slashes(text::trimmed_end(text::trimmed_start(entry))).map(
        |i: int, character: char| comparable_char(character, platform),
    )
}

fn comparable_entry(entry: &str, platform: Platform) -> (result: String)
    ensures
        result@ == comparable(entry@, platform),
{
    let chars = chars_of(entry);
    let trimmed = trim_chars(chars.as_slice());
    let mut end: usize = trimmed.len();
    assert(trimmed@.take(end as int) =~= trimmed@);
    while end > 0 && (trimmed[end - 1] == '/' || trimmed[end - 1] == '\\')
        invariant
            end <= trimmed.len(),
            without_trailing_slashes(trimmed@) == without_trailing_slashes(
                trimmed@.take(end as int),
            ),
        decreases end,
    {
        assert(trimmed@.take(end as int).drop_last() =~= trimmed@.take(end - 1));
        end -= 1;
    }
    let kept = slice_subrange(trimmed, 0, end);
    assert(kept@ =~= trimmed@.take(end as int));
    if !platform.windows {
        assert(kept@ =~= comparable(entry@, platform));
        return string_of(kept);
    }
    let lower = lower_chars(kept);
    let mut result: Vec<char> = Vec::new();
    let mut index: usize = 0;
    while index < lower.len()
        invariant
            index <= lower.len(),
            lower@ == text::lowered(kept@),
            platform.windows,
            result@.len() == index,
            forall|i: int|
                0 <= i < index ==> #[trigger] result@[i] == comparable_char(kept@[i], platform),
        decreases lower.len() - index,
    {
        result.push(
            if lower[index] == '\\' {
                '/'
            } else {
                lower[index]
            },
        );
        index += 1;
    }
    assert(result@ =~= comparable(entry@, platform));
    string_of(result.as_slice())
}

/// The entries of a search path, as they stand; none when it is no text.
pub open spec fn path_entries(value: Seq<u8>, platform: Platform) -> Seq<Seq<char>> {
    match as_text(value) {
        Some(value) => text::pieces(value, platform.separator()),
        None => Seq::empty(),
    }
}

/// The comparable forms of entries.
pub open spec fn comparables(entries: Seq<Seq<char>>, platform: Platform) -> Seq<Seq<char>> {
    entries.map(|i: int, entry: Seq<char>| comparable(entry, platform))
}

/// A search path with more entries: those that are empty or known are passed over.
pub open spec fn with_entries(
    host: Seq<u8>,
    known: Seq<Seq<char>>,
    entries: Seq<Seq<char>>,
    platform: Platform,
) -> Seq<u8>
    decreases entries.len(),
{
    if entries.len() == 0 {
        host
    } else {
        let before = with_entries(host, known, entries.drop_last(), platform);
        let entry = comparable(entries.last(), platform);
        if entry.len() == 0 || known.contains(entry) {
            before
        } else if before.len() == 0 {
            encode_utf8(entries.last())
        } else {
            before + encode_utf8(seq![platform.separator()]) + encode_utf8(entries.last())
        }
    }
}

/// The host's search path with the persisted entries that it lacks.
pub open spec fn joined_path(host: Seq<u8>, persisted: Seq<u8>, platform: Platform) -> Seq<u8> {
    with_entries(
        host,
        comparables(path_entries(host, platform), platform),
        path_entries(persisted, platform),
        platform,
    )
}

/// The live search path comes first, letter for letter.
pub proof fn live_path_leads(host: Seq<u8>, persisted: Seq<u8>, platform: Platform)
    ensures
        host.is_prefix_of(joined_path(host, persisted, platform)),
{
    entries_append(
        host,
        comparables(path_entries(host, platform), platform),
        path_entries(persisted, platform),
        platform,
    );
}

proof fn entries_append(
    host: Seq<u8>,
    known: Seq<Seq<char>>,
    entries: Seq<Seq<char>>,
    platform: Platform,
)
    ensures
        host.is_prefix_of(with_entries(host, known, entries, platform)),
    decreases entries.len(),
{
    if entries.len() > 0 {
        entries_append(host, known, entries.drop_last(), platform);
    }
}

fn split_search_path(value: &[u8], platform: Platform) -> (entries: Vec<String>)
    ensures
        text::views(entries@) == path_entries(value@, platform),
{
    match to_text(value) {
        Some(value) => split_at_char(value.as_str(), platform.path_list_separator()),
        None => {
            let entries: Vec<String> = Vec::new();
            assert(text::views(entries@) =~= Seq::<Seq<char>>::empty());
            entries
        },
    }
}

fn is_known(known: &Vec<String>, entry: &str) -> (found: bool)
    ensures
        found == text::views(known@).contains(entry@),
{
    let mut index: usize = 0;
    while index < known.len()
        invariant
            index <= known.len(),
            forall|i: int| 0 <= i < index ==> #[trigger] text::views(known@)[i] != entry@,
        decreases known.len() - index,
    {
        if same_text(known[index].as_str(), entry) {
            assert(text::views(known@)[index as int] == entry@);
            return true;
        }
        index += 1;
    }
    false
}

/// Adds the persisted search-path entries that the host's search path lacks.
pub fn union_search_path(host: &[u8], persisted: &[u8], platform: Platform) -> (merged: Vec<u8>)
    ensures
        merged@ == joined_path(host@, persisted@, platform),
{
    let host_entries = split_search_path(host, platform);
    let mut known: Vec<String> = Vec::new();
    let mut index: usize = 0;
    while index < host_entries.len()
        invariant
            index <= host_entries.len(),
            text::views(host_entries@) == path_entries(host@, platform),
            known@.len() == index,
            forall|i: int|
                0 <= i < index ==> (#[trigger] known@[i])@ == comparable(
                    host_entries@[i]@,
                    platform,
                ),
        decreases host_entries.len() - index,
    {
        known.push(comparable_entry(host_entries[index].as_str(), platform));
        index += 1;
    }
    let ghost wanted = comparables(path_entries(host@, platform), platform);
    proof {
        assert forall|i: int| 0 <= i < wanted.len() implies text::views(known@)[i]
            == wanted[i] by {
            assert(path_entries(host@, platform)[i] == host_entries@[i]@);
        }
        assert(text::views(host_entries@).len() == host_entries@.len());
        assert(text::views(known@) =~= wanted);
    }
    let entries = split_search_path(persisted, platform);
    let ghost all = path_entries(persisted@, platform);
    let mut merged = slice_to_vec(host);
    let separator = path_separator_bytes(platform);
    let mut at: usize = 0;
    proof {
        assert(merged@ =~= host@);
        assert(all.take(0) =~= Seq::<Seq<char>>::empty());
    }
    while at < entries.len()
        invariant
            at <= entries.len(),
            text::views(entries@) == all,
            text::views(known@) == wanted,
            separator@ == encode_utf8(seq![platform.separator()]),
            merged@ == with_entries(host@, wanted, all.take(at as int), platform),
        decreases entries.len() - at,
    {
        let entry = entries[at].as_str();
        proof {
            assert(all.take(at + 1).drop_last() =~= all.take(at as int));
            assert(all[at as int] == entries@[at as int]@);
            assert(all.take(at + 1).last() == entry@);
        }
        let form = comparable_entry(entry, platform);
        if !form.as_str().is_empty() && !is_known(&known, form.as_str()) {
            if merged.len() > 0 {
                merged.extend_from_slice(separator.as_slice());
                merged.extend_from_slice(entry.as_bytes());
            } else {
                merged.extend_from_slice(entry.as_bytes());
                assert(merged@ =~= encode_utf8(entry@));
            }
        }
        at += 1;
    }
    proof {
        assert(text::views(entries@).len() == entries@.len());
        assert(all.take(all.len() as int) =~= all);
    }
    merged
}

fn path_separator_bytes(platform: Platform) -> (bytes: Vec<u8>)
    ensures
        bytes@ == encode_utf8(seq![platform.separator()]),
{
    let mut text = String::new();
    text.push(platform.path_list_separator());
    assert(text@ =~= seq![platform.separator()]);
    slice_to_vec(text.as_str().as_bytes())
}

/// Variables without repeated names: the first one counts.
pub open spec fn first_of_each(variables: Seq<VariableSpec>, platform: Platform) -> Seq<
    VariableSpec,
>
    decreases variables.len(),
{
    if variables.len() == 0 {
        Seq::empty()
    } else {
        let before = first_of_each(variables.drop_last(), platform);
        if position(before, variables.last().name, platform) is Some {
            before
        } else {
            before.push(variables.last())
        }
    }
}

/// One variable of the host laid over others.
pub open spec fn laid_over(
    merged: Seq<VariableSpec>,
    host: VariableSpec,
    platform: Platform,
) -> Seq<VariableSpec> {
    match position(merged, host.name, platform) {
        Some(at) => merged.update(
            at,
            VariableSpec {
                name: merged[at].name,
                value: if same_name(host.name, encode_utf8("PATH"@), platform) {
                    joined_path(host.value, merged[at].value, platform)
                } else {
                    host.value
                },
            },
        ),
        None => merged.push(host),
    }
}

/// The host's variables laid over others, one after the other.
pub open spec fn all_laid_over(
    merged: Seq<VariableSpec>,
    host: Seq<VariableSpec>,
    platform: Platform,
) -> Seq<VariableSpec>
    decreases host.len(),
{
    if host.len() == 0 {
        merged
    } else {
        laid_over(all_laid_over(merged, host.drop_last(), platform), host.last(), platform)
    }
}

/// The host's variables over the persisted ones.
pub open spec fn overlay_spec(
    persisted: Seq<VariableSpec>,
    host: Seq<VariableSpec>,
    platform: Platform,
) -> Seq<VariableSpec> {
    all_laid_over(first_of_each(persisted, platform), host, platform)
}

/// Whether no name occurs twice.
pub open spec fn names_differ(variables: Seq<VariableSpec>, platform: Platform) -> bool {
    forall|i: int, j: int|
        0 <= i < j < variables.len() ==> !same_name(
            (#[trigger] variables[i]).name,
            (#[trigger] variables[j]).name,
            platform,
        )
}

/// A name never occurs twice in the merged environment.
pub proof fn merged_names_differ(
    persisted: Seq<VariableSpec>,
    host: Seq<VariableSpec>,
    platform: Platform,
)
    ensures
        names_differ(overlay_spec(persisted, host, platform), platform),
{
    first_names_differ(persisted, platform);
    laid_over_names_differ(first_of_each(persisted, platform), host, platform);
}

proof fn first_names_differ(variables: Seq<VariableSpec>, platform: Platform)
    ensures
        names_differ(first_of_each(variables, platform), platform),
    decreases variables.len(),
{
    if variables.len() > 0 {
        let before = first_of_each(variables.drop_last(), platform);
        first_names_differ(variables.drop_last(), platform);
        position_is_first(before, variables.last().name, platform);
        let now = first_of_each(variables, platform);
        assert forall|i: int, j: int| 0 <= i < j < now.len() implies !same_name(
            (#[trigger] now[i]).name,
            (#[trigger] now[j]).name,
            platform,
        ) by {
            assert(now[i] == before[i]);
            if j < before.len() {
                assert(now[j] == before[j]);
            }
        }
    }
}

proof fn laid_over_names_differ(
    merged: Seq<VariableSpec>,
    host: Seq<VariableSpec>,
    platform: Platform,
)
    requires
        names_differ(merged, platform),
    ensures
        names_differ(all_laid_over(merged, host, platform), platform),
    decreases host.len(),
{
    if host.len() > 0 {
        let before = all_laid_over(merged, host.drop_last(), platform);
        laid_over_names_differ(merged, host.drop_last(), platform);
        position_is_first(before, host.last().name, platform);
        let now = all_laid_over(merged, host, platform);
        assert forall|i: int, j: int| 0 <= i < j < now.len() implies !same_name(
            (#[trigger] now[i]).name,
            (#[trigger] now[j]).name,
            platform,
        ) by {
            assert(now[i].name == before[i].name);
            if j < before.len() {
                assert(now[j].name == before[j].name);
            } else {
                assert(now[j] == host.last());
            }
        }
    }
}

/// What the host provides last wins: its value stands in the merged environment, as the start of
/// the search path and as the whole value of every other variable.
pub proof fn host_value_wins(
    persisted: Seq<VariableSpec>,
    host: Seq<VariableSpec>,
    platform: Platform,
)
    requires
        host.len() > 0,
    ensures
        ({
            let merged = overlay_spec(persisted, host, platform);
            let last = host.last();
            match position(merged, last.name, platform) {
                None => false,
                Some(at) => if same_name(last.name, encode_utf8("PATH"@), platform) {
                    last.value.is_prefix_of(merged[at].value)
                } else {
                    merged[at].value == last.value
                },
            }
        }),
{
    let before = all_laid_over(first_of_each(persisted, platform), host.drop_last(), platform);
    let last = host.last();
    let merged = overlay_spec(persisted, host, platform);
    position_is_first(before, last.name, platform);
    position_is_first(merged, last.name, platform);
    merged_names_differ(persisted, host, platform);
    match position(before, last.name, platform) {
        Some(at) => {
            live_path_leads(last.value, before[at].value, platform);
            assert(merged[at].name == before[at].name);
            assert(same_name(merged[at].name, last.name, platform));
            let found = position(merged, last.name, platform)->Some_0;
            if found < at {
                assert(!same_name(merged[found].name, merged[at].name, platform));
            }
        },
        None => {
            let at = before.len() as int;
            assert(merged[at] == last);
            let found = position(merged, last.name, platform)->Some_0;
            if found < at {
                assert(!same_name(merged[found].name, merged[at].name, platform));
            }
            assert(last.value.is_prefix_of(last.value));
        },
    }
}

fn copy_variable(variable: &Variable) -> (copy: Variable)
    ensures
        copy@ == variable@,
{
    let copy = Variable {
        name: slice_to_vec(variable.name.as_slice()),
        value: slice_to_vec(variable.value.as_slice()),
    };
    assert(copy@.name =~= variable@.name);
    assert(copy@.value =~= variable@.value);
    copy
}

/// A copy of variables.
pub fn copy_variables(variables: &Vec<Variable>) -> (copy: Vec<Variable>)
    ensures
        variable_views(copy@) == variable_views(variables@),
{
    let mut copy: Vec<Variable> = Vec::new();
    let mut index: usize = 0;
    while index < variables.len()
        invariant
            index <= variables.len(),
            copy@.len() == index,
            forall|i: int| 0 <= i < index ==> (#[trigger] copy@[i])@ == variables@[i]@,
        decreases variables.len() - index,
    {
        copy.push(copy_variable(&variables[index]));
        index += 1;
    }
    assert(variable_views(copy@) =~= variable_views(variables@));
    copy
}

/// Lays the host's variables over the persisted ones.
pub fn overlay(persisted: &Vec<Variable>, host: &Vec<Variable>, platform: Platform) -> (merged: Vec<
    Variable,
>)
    ensures
        variable_views(merged@) == overlay_spec(
            variable_views(persisted@),
            variable_views(host@),
            platform,
        ),
{
    let ghost below = variable_views(persisted@);
    let ghost above = variable_views(host@);
    let mut merged: Vec<Variable> = Vec::new();
    let mut index: usize = 0;
    assert(below.take(0) =~= Seq::<VariableSpec>::empty());
    assert(variable_views(merged@) =~= Seq::<VariableSpec>::empty());
    while index < persisted.len()
        invariant
            index <= persisted.len(),
            below == variable_views(persisted@),
            variable_views(merged@) == first_of_each(below.take(index as int), platform),
        decreases persisted.len() - index,
    {
        let variable = &persisted[index];
        proof {
            assert(below.take(index + 1).drop_last() =~= below.take(index as int));
            assert(below.take(index + 1).last() == variable@);
        }
        if find_variable(&merged, variable.name.as_slice(), platform).is_none() {
            let ghost before = merged@;
            let copy = copy_variable(variable);
            merged.push(copy);
            assert(variable_views(merged@) =~= variable_views(before).push(variable@));
        }
        index += 1;
    }
    assert(below.take(below.len() as int) =~= below);
    let ghost base = first_of_each(below, platform);
    let search_path = "PATH".as_bytes();
    let mut at: usize = 0;
    assert(above.take(0) =~= Seq::<VariableSpec>::empty());
    while at < host.len()
        invariant
            at <= host.len(),
            above == variable_views(host@),
            search_path@ == encode_utf8("PATH"@),
            variable_views(merged@) == all_laid_over(base, above.take(at as int), platform),
        decreases host.len() - at,
    {
        let variable = &host[at];
        let ghost before = variable_views(merged@);
        proof {
            assert(above.take(at + 1).drop_last() =~= above.take(at as int));
            assert(above.take(at + 1).last() == variable@);
        }
        match find_variable(&merged, variable.name.as_slice(), platform) {
            Some(place) => {
                let value = if environment_name_eq(
                    variable.name.as_slice(),
                    search_path,
                    platform,
                ) {
                    union_search_path(
                        variable.value.as_slice(),
                        merged[place].value.as_slice(),
                        platform,
                    )
                } else {
                    slice_to_vec(variable.value.as_slice())
                };
                let name = slice_to_vec(merged[place].name.as_slice());
                proof {
                    assert(before[place as int] == merged@[place as int]@);
                    assert(name@ =~= before[place as int].name);
                    if !same_name(variable@.name, encode_utf8("PATH"@), platform) {
                        assert(value@ =~= variable@.value);
                    }
                }
                let updated = Variable { name, value };
                let ghost shown = updated@;
                merged.set(place, updated);
                assert(variable_views(merged@) =~= before.update(place as int, shown));
            },
            None => {
                let copy = copy_variable(variable);
                merged.push(copy);
                assert(variable_views(merged@) =~= before.push(variable@));
            },
        }
        at += 1;
    }
    assert(above.take(above.len() as int) =~= above);
    merged
}

/// Whether a setting clearly means off.
pub open spec fn means_off(value: Seq<char>) -> bool {
    let word = text::lowered(text::trimmed_end(text::trimmed_start(value)));
    word == "0"@ || word == "false"@ || word == "off"@ || word == "no"@
}

/// Whether the persisted environment is restored: unless the opt-out is set to off.
pub open spec fn inherits(variables: Seq<VariableSpec>, platform: Platform) -> bool {
    match position(variables, encode_utf8("FASTCTX_INHERIT_ENVIRONMENT"@), platform) {
        Some(at) => match as_text(variables[at].value) {
            Some(value) => !means_off(value),
            None => true,
        },
        None => true,
    }
}

/// Whether the persisted environment is restored.
pub fn inheritance_enabled(variables: &Vec<Variable>, platform: Platform) -> (enabled: bool)
    ensures
        enabled == inherits(variable_views(variables@), platform),
{
    let name = "FASTCTX_INHERIT_ENVIRONMENT".as_bytes();
    match find_variable(variables, name, platform) {
        Some(at) => {
            assert(variable_views(variables@)[at as int] == variables@[at as int]@);
            match to_text(variables[at].value.as_slice()) {
                Some(value) => {
                    let chars = chars_of(value.as_str());
                    let lower = lower_chars(trim_chars(chars.as_slice()));
                    let word = string_of(lower.as_slice());
                    !(same_text(word.as_str(), "0") || same_text(word.as_str(), "false")
                        || same_text(word.as_str(), "off") || same_text(word.as_str(), "no"))
                },
                None => true,
            }
        },
        None => true,
    }
}

/// The variables that a user command sees.
pub open spec fn command_variables_spec(
    persisted: Seq<VariableSpec>,
    host: Seq<VariableSpec>,
    platform: Platform,
) -> Seq<VariableSpec> {
    let merged = overlay_spec(persisted, host, platform);
    if persisted.len() == 0 || !inherits(merged, platform) {
        host
    } else {
        merged
    }
}

/// The variables that a user command sees. The opt-out is looked up in the merged environment.
pub fn command_variables(persisted: &Vec<Variable>, host: &Vec<Variable>, platform: Platform) -> (
result: Vec<Variable>)
    ensures
        variable_views(result@) == command_variables_spec(
            variable_views(persisted@),
            variable_views(host@),
            platform,
        ),
{
    assert(variable_views(persisted@).len() == persisted@.len());
    if persisted.len() == 0 {
        return copy_variables(host);
    }
    let merged = overlay(persisted, host, platform);
    if !inheritance_enabled(&merged, platform) {
        return copy_variables(host);
    }
    merged
}

/// The text from `cursor` on with `%NAME%` references filled in; unknown names stay as they are.
pub open spec fn expanded_from(
    chars: Seq<char>,
    cursor: int,
    lookup: Seq<VariableSpec>,
    platform: Platform,
) -> Seq<u8>
    decreases chars.len() - cursor,
    when cursor >= 0
    via expanded_from_decreases
{
    match text::next_index(chars, cursor, '%') {
        None => encode_utf8(chars.skip(cursor)),
        Some(start) => match text::next_index(chars, start + 1, '%') {
            None => encode_utf8(chars.skip(cursor)),
            Some(end) => {
                let name = chars.subrange(start + 1, end);
                let piece = match position(lookup, encode_utf8(name), platform) {
                    Some(at) => lookup[at].value,
                    None => encode_utf8(chars.subrange(start, end + 1)),
                };
                encode_utf8(chars.subrange(cursor, start)) + piece + expanded_from(
                    chars,
                    end + 1,
                    lookup,
                    platform,
                )
            },
        },
    }
}

#[via_fn]
proof fn expanded_from_decreases(
    chars: Seq<char>,
    cursor: int,
    lookup: Seq<VariableSpec>,
    platform: Platform,
) {
    text::next_index_bounds(chars, cursor, '%');
    if let Some(start) = text::next_index(chars, cursor, '%') {
        text::next_index_bounds(chars, start + 1, '%');
    }
}

/// A value with its references filled in; a value that is no text stays as it is.
pub open spec fn expanded(value: Seq<u8>, lookup: Seq<VariableSpec>, platform: Platform) -> Seq<u8> {
    match as_text(value) {
        Some(chars) => expanded_from(chars, 0, lookup, platform),
        None => value,
    }
}

/// Fills in `%NAME%` references.
pub fn expand_references(value: &[u8], lookup: &Vec<Variable>, platform: Platform) -> (result: Vec<
    u8,
>)
    ensures
        result@ == expanded(value@, variable_views(lookup@), platform),
{
    let ghost shown = variable_views(lookup@);
    let chars = match to_text(value) {
        Some(value) => chars_of(value.as_str()),
        None => {
            let copy = slice_to_vec(value);
            assert(copy@ =~= value@);
            return copy;
        },
    };
    let mut result: Vec<u8> = Vec::new();
    let mut cursor: usize = 0;
    assert(result@ + expanded_from(chars@, 0, shown, platform) =~= expanded_from(
        chars@,
        0,
        shown,
        platform,
    ));
    loop
        invariant_except_break
            cursor <= chars.len(),
            shown == variable_views(lookup@),
            result@ + expanded_from(chars@, cursor as int, shown, platform) == expanded_from(
                chars@,
                0,
                shown,
                platform,
            ),
        ensures
            cursor <= chars.len(),
            result@ + encode_utf8(chars@.skip(cursor as int)) == expanded_from(
                chars@,
                0,
                shown,
                platform,
            ),
        decreases chars.len() - cursor,
    {
        let start = match find_from(chars.as_slice(), cursor, '%') {
            Some(start) => start,
            None => {
                break;
            },
        };
        let end = match find_from(chars.as_slice(), start + 1, '%') {
            Some(end) => end,
            None => {
                break;
            },
        };
        let ghost before = result@;
        let head = string_of(slice_subrange(chars.as_slice(), cursor, start));
        result.extend_from_slice(head.as_str().as_bytes());
        let name = string_of(slice_subrange(chars.as_slice(), start + 1, end));
        let ghost mut piece = Seq::<u8>::empty();
        match find_variable(lookup, name.as_str().as_bytes(), platform) {
            Some(at) => {
                result.extend_from_slice(lookup[at].value.as_slice());
                proof {
                    piece = lookup@[at as int]@.value;
                    assert(shown[at as int] == lookup@[at as int]@);
                }
            },
            None => {
                let whole = string_of(slice_subrange(chars.as_slice(), start, end + 1));
                result.extend_from_slice(whole.as_str().as_bytes());
                proof {
                    piece = encode_utf8(whole@);
                }
            },
        }
        proof {
            let rest = expanded_from(chars@, end + 1, shown, platform);
            assert(result@ =~= before + encode_utf8(head@) + piece);
            assert(result@ + rest =~= before + (encode_utf8(head@) + piece + rest));
        }
        cursor = end + 1;
    }
    let tail = string_of(slice_subrange(chars.as_slice(), cursor, chars.len()));
    assert(chars@.subrange(cursor as int, chars@.len() as int) =~= chars@.skip(cursor as int));
    result.extend_from_slice(tail.as_str().as_bytes());
    result
}

/// The variables that Windows persists: those of the system, under those of the user, with
/// references filled in from them and from the host.
pub open spec fn persisted_spec(
    system: Seq<VariableSpec>,
    user: Seq<VariableSpec>,
    host: Seq<VariableSpec>,
    platform: Platform,
) -> Seq<VariableSpec> {
    let merged = overlay_spec(system, user, platform);
    let lookup = overlay_spec(merged, host, platform);
    merged.map(
        |i: int, variable: VariableSpec|
            VariableSpec {
                name: variable.name,
                value: expanded(variable.value, lookup, platform),
            },
    )
}

/// The variables that Windows persists.
pub fn persisted_variables(
    system: &Vec<Variable>,
    user: &Vec<Variable>,
    host: &Vec<Variable>,
    platform: Platform,
) -> (result: Vec<Variable>)
    ensures
        variable_views(result@) == persisted_spec(
            variable_views(system@),
            variable_views(user@),
            variable_views(host@),
            platform,
        ),
{
    let merged = overlay(system, user, platform);
    let lookup = overlay(&merged, host, platform);
    let ghost wanted = persisted_spec(
        variable_views(system@),
        variable_views(user@),
        variable_views(host@),
        platform,
    );
    let mut result: Vec<Variable> = Vec::new();
    let mut index: usize = 0;
    assert(wanted.len() == variable_views(merged@).len());
    while index < merged.len()
        invariant
            index <= merged.len(),
            result@.len() == index,
            wanted.len() == merged@.len(),
            wanted == variable_views(merged@).map(
                |i: int, variable: VariableSpec|
                    VariableSpec {
                        name: variable.name,
                        value: expanded(variable.value, variable_views(lookup@), platform),
                    },
            ),
            forall|i: int| 0 <= i < index ==> (#[trigger] result@[i])@ == wanted[i],
        decreases merged.len() - index,
    {
        let variable = &merged[index];
        let name = slice_to_vec(variable.name.as_slice());
        let value = expand_references(variable.value.as_slice(), &lookup, platform);
        proof {
            assert(variable_views(merged@)[index as int] == variable@);
            assert(name@ =~= variable@.name);
        }
        result.push(Variable { name, value });
        index += 1;
    }
    assert(variable_views(result@) =~= wanted);
    result
}

/// The 16-bit units of a stored string, up to its terminator.
pub open spec fn stored_units(bytes: Seq<u8>, count: int) -> Seq<u16>
    decreases count,
{
    if count <= 0 {
        Seq::empty()
    } else {
        let before = stored_units(bytes, count - 1);
        let unit = (bytes[2 * count - 2] + 0x100 * bytes[2 * count - 1]) as u16;
        if before.len() < count - 1 || unit == 0 {
            before
        } else {
            before.push(unit)
        }
    }
}

/// The 16-bit units of a stored string, up to its terminator.
pub fn wide_units(bytes: &[u8]) -> (units: Vec<u16>)
    ensures
        units@ == stored_units(bytes@, bytes@.len() as int / 2),
{
    let mut units: Vec<u16> = Vec::new();
    let mut index: usize = 0;
    let total: usize = bytes.len() / 2;
    while index < total
        invariant
            index <= total,
            total == bytes.len() / 2,
            units@ == stored_units(bytes@, index as int),
            units@.len() == index,
        decreases total - index,
    {
        let low: u16 = bytes[2 * index] as u16;
        let high: u16 = bytes[2 * index + 1] as u16;
        let unit: u16 = low + 0x100 * high;
        assert(stored_units(bytes@, index + 1) == if unit == 0 {
            units@
        } else {
            units@.push(unit)
        });
        if unit == 0 {
            proof {
                ended_units(bytes@, index + 1, total as int);
            }
            return units;
        }
        units.push(unit);
        index += 1;
    }
    units
}

proof fn ended_units(bytes: Seq<u8>, from: int, to: int)
    requires
        0 <= from <= to,
        stored_units(bytes, from).len() < from,
    ensures
        stored_units(bytes, to) == stored_units(bytes, from),
    decreases to,
{
    if from < to {
        ended_units(bytes, from, to - 1);
    }
}

/// Whether a stored value becomes a variable: strings with a name do.
pub fn keeps_value(kind: u32, name_len: usize) -> (keeps: bool)
    ensures
        keeps == ((kind == 1 || kind == 2) && name_len > 0),
{
    (kind == 1 || kind == 2) && name_len > 0
}

} // verus!
