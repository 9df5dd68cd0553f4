//! Patterns and replacement templates: compilation by the `regex` crate, and the check that a
//! template refers to groups that the pattern has.

use crate::text;
use crate::text::{chars_of, decimal_text, find_from, join_first, same_text, string_of};
use vstd::prelude::*;
use vstd::slice::slice_subrange;
use vstd::string::*;
use vstd::utf8::*;

verus! {

#[verifier::external_type_specification]
#[verifier::external_body]
pub struct ExRegex(regex::Regex);

/// One match of a pattern in a text, with the expansion of the replacement template.
#[derive(Clone, Debug)]
pub struct RegexMatch {
    /// UTF-8 offset of the first byte.
    pub start: usize,
    /// UTF-8 offset past the last byte.
    pub end: usize,
    /// The matched text.
    pub matched: String,
    /// The template with its references filled in.
    pub expanded: String,
}

/// The mathematical value of a [`RegexMatch`].
pub struct MatchSpec {
    pub start: int,
    pub end: int,
    pub matched: Seq<char>,
    pub expanded: Seq<char>,
}

impl View for RegexMatch {
    type V = MatchSpec;

    open spec fn view(&self) -> MatchSpec {
        MatchSpec {
            start: self.start as int,
            end: self.end as int,
            matched: self.matched@,
            expanded: self.expanded@,
        }
    }
}

/// The mathematical values of matches.
pub open spec fn match_views(matches: Seq<RegexMatch>) -> Seq<MatchSpec> {
    matches.map(|i: int, found: RegexMatch| found@)
}

/// Whether matches follow each other without overlap in a text of `len` bytes.
pub open spec fn in_order(matches: Seq<MatchSpec>, len: int) -> bool {
    &&& forall|i: int|
        0 <= i < matches.len() ==> 0 <= (#[trigger] matches[i]).start <= matches[i].end <= len
    &&& forall|i: int, j: int|
        0 <= i < j < matches.len() ==> (#[trigger] matches[i]).end <= (#[trigger] matches[j]).start
}

/// Whether matches begin and end between characters of a text, and hold what stands there.
pub open spec fn taken_from(matches: Seq<MatchSpec>, bytes: Seq<u8>) -> bool {
    forall|i: int|
        0 <= i < matches.len() ==> {
            &&& is_char_boundary(bytes, (#[trigger] matches[i]).start)
            &&& is_char_boundary(bytes, matches[i].end)
            &&& encode_utf8(matches[i].matched) == bytes.subrange(matches[i].start, matches[i].end)
        }
}

/// The pattern that a regex was built from, and whether it ignores case and lets `.` match line
/// feeds.
pub uninterp spec fn regex_source(regex: regex::Regex) -> (Seq<char>, bool, bool);

/// The message with which a pattern is refused; `None` for one that compiles.
pub uninterp spec fn regex_rejection(
    pattern: Seq<char>,
    case_insensitive: bool,
    dot_all: bool,
) -> Option<Seq<char>>;

/// The number of groups, the whole match included.
pub uninterp spec fn regex_group_count(pattern: Seq<char>) -> nat;

/// The names of the groups in order, `None` for one without a name.
pub uninterp spec fn regex_group_names(pattern: Seq<char>) -> Seq<Option<Seq<char>>>;

/// The successive matches in a text, each with the expanded template.
pub uninterp spec fn regex_matches(
    pattern: Seq<char>,
    case_insensitive: bool,
    dot_all: bool,
    text: Seq<char>,
    template: Seq<char>,
) -> Seq<MatchSpec>;

/// A pattern that matches the given text literally.
pub uninterp spec fn escaped_pattern(literal: Seq<char>) -> Seq<char>;

/// The length of the shortest match of a pattern, `None` when it matches nothing, or the message
/// with which its syntax is refused.
pub uninterp spec fn shortest_match(pattern: Seq<char>) -> Result<Option<usize>, Seq<char>>;

/// `RegexBuilder::build` with the two flags: the compiled pattern, or the text of the error.
#[verifier::external_body]
fn compile(pattern: &str, case_insensitive: bool, dot_all: bool) -> (result: Result<
    regex::Regex,
    String,
>)
    ensures
        match result {
            Ok(regex) => {
                &&& regex_rejection(pattern@, case_insensitive, dot_all) is None
                &&& regex_source(regex) == (pattern@, case_insensitive, dot_all)
            },
            Err(message) => regex_rejection(pattern@, case_insensitive, dot_all) == Some(message@),
        },
{
    regex::RegexBuilder::new(pattern)
        .case_insensitive(case_insensitive)
        .dot_matches_new_line(dot_all)
        .build()
        .map_err(|error| error.to_string())
}

/// `Regex::captures_len`: the number of groups, which the flags do not change and which is never
/// zero.
#[verifier::external_body]
fn group_count(regex: &regex::Regex) -> (count: usize)
    ensures
        count == regex_group_count(regex_source(*regex).0),
        count >= 1,
{
    regex.captures_len()
}

/// The view of an optional name.
pub open spec fn name_view(name: Option<String>) -> Option<Seq<char>> {
    match name {
        Some(name) => Some(name@),
        None => None,
    }
}

/// `Regex::capture_names`: the names of the groups in order, which the flags do not change.
#[verifier::external_body]
fn group_names(regex: &regex::Regex) -> (names: Vec<Option<String>>)
    ensures
        names@.map(|i: int, name: Option<String>| name_view(name)) == regex_group_names(
            regex_source(*regex).0,
        ),
{
    regex.capture_names().map(|name| name.map(|name| name.to_string())).collect()
}

/// `Regex::captures_iter` with `Captures::expand` of the template for each match: the successive
/// non-overlapping matches, whose offsets are character boundaries of the text, each with the text
/// between its offsets.
#[verifier::external_body]
fn find_matches(regex: &regex::Regex, text: &str, template: &str) -> (matches: Vec<RegexMatch>)
    ensures
        match_views(matches@) == regex_matches(
            regex_source(*regex).0,
            regex_source(*regex).1,
            regex_source(*regex).2,
            text@,
            template@,
        ),
        in_order(match_views(matches@), encode_utf8(text@).len() as int),
        taken_from(match_views(matches@), encode_utf8(text@)),
{
    let expand = |captures: regex::Captures<'_>| {
        let mut expanded = String::new();
        captures.expand(template, &mut expanded);
        let (start, end) = (captures.get_match().start(), captures.get_match().end());
        let matched = captures.get_match().as_str().to_string();
        RegexMatch { start, end, matched, expanded }
    };
    regex.captures_iter(text).map(expand).collect()
}

/// `regex::escape`: a pattern that matches the text literally.
#[verifier::external_body]
fn escape(literal: &str) -> (pattern: String)
    ensures
        pattern@ == escaped_pattern(literal@),
{
    regex::escape(literal)
}

/// `Properties::minimum_len` of the parsed pattern: the length of its shortest match, or the
/// text of the syntax error.
#[verifier::external_body]
fn minimum_len(pattern: &str) -> (result: Result<Option<usize>, String>)
    ensures
        match result {
            Ok(len) => shortest_match(pattern@) == Ok::<Option<usize>, Seq<char>>(len),
            Err(message) => shortest_match(pattern@) == Err::<Option<usize>, Seq<char>>(message@),
        },
{
    regex_syntax::Parser::new()
        .parse(pattern)
        .map(|hir| hir.properties().minimum_len())
        .map_err(|error| error.to_string())
}

/// What a replacement looks for and how.
pub struct PatternOptions {
    pub literal: bool,
    pub case_insensitive: bool,
    pub dot_all: bool,
}

/// The pattern that is compiled.
pub open spec fn effective_pattern(pattern: Seq<char>, literal: bool) -> Seq<char> {
    if literal {
        escaped_pattern(pattern)
    } else {
        pattern
    }
}

/// The message about a pattern that the engine refuses.
pub open spec fn invalid_pattern(reason: Seq<char>) -> Seq<char> {
    "Invalid regex pattern: "@ + reason
        + "\nNote: Rust regex syntax — no lookaround or backreferences; escape literal braces."@
}

/// Why a pattern cannot be used.
pub open spec fn pattern_error(pattern: Seq<char>, options: PatternOptions) -> Option<Seq<char>> {
    let effective = effective_pattern(pattern, options.literal);
    if pattern.len() == 0 {
        Some(
            "An empty pattern matches at every position and is almost always a mistake. Give a non-empty pattern."@,
        )
    } else {
        match regex_rejection(effective, options.case_insensitive, options.dot_all) {
            Some(reason) => Some(invalid_pattern(reason)),
            None => match shortest_match(effective) {
                Err(reason) => Some(invalid_pattern(reason)),
                Ok(_) => None,
            },
        }
    }
}

/// A compiled pattern.
pub struct CompiledRegex {
    regex: regex::Regex,
    can_match_empty: bool,
}

fn invalid_pattern_message(reason: &str) -> (message: String)
    ensures
        message@ == invalid_pattern(reason@),
{
    let mut message = "Invalid regex pattern: ".to_owned();
    message.append(reason);
    message.append(
        "\nNote: Rust regex syntax — no lookaround or backreferences; escape literal braces.",
    );
    message
}

impl CompiledRegex {
    /// The pattern and flags that were compiled.
    pub closed spec fn source(&self) -> (Seq<char>, bool, bool) {
        regex_source(self.regex)
    }

    /// Whether the pattern can match the empty text.
    pub closed spec fn can_match_empty(&self) -> bool {
        self.can_match_empty
    }

    /// Compiles a pattern.
    pub fn build(pattern: &str, options: PatternOptions) -> (result: Result<CompiledRegex, String>)
        ensures
            match result {
                Ok(compiled) => {
                    let effective = effective_pattern(pattern@, options.literal);
                    &&& pattern_error(pattern@, options) is None
                    &&& compiled.source() == (
                        effective,
                        options.case_insensitive,
                        options.dot_all,
                    )
                    &&& compiled.can_match_empty() == (shortest_match(effective) == Ok::<
                        Option<usize>,
                        Seq<char>,
                    >(Some(0usize)))
                },
                Err(message) => pattern_error(pattern@, options) == Some(message@),
            },
    {
        if pattern.is_empty() {
            return Err(
                "An empty pattern matches at every position and is almost always a mistake. Give a non-empty pattern.".to_owned(),
            );
        }
        let effective = if options.literal {
            escape(pattern)
        } else {
            pattern.to_owned()
        };
        let regex = match compile(
            effective.as_str(),
            options.case_insensitive,
            options.dot_all,
        ) {
            Ok(regex) => regex,
            Err(reason) => {
                return Err(invalid_pattern_message(reason.as_str()));
            },
        };
        match minimum_len(effective.as_str()) {
            Ok(len) => {
                let can_match_empty = match len {
                    Some(len) => len == 0,
                    None => false,
                };
                Ok(CompiledRegex { regex, can_match_empty })
            },
            Err(reason) => Err(invalid_pattern_message(reason.as_str())),
        }
    }

    /// Whether the pattern can match the empty text.
    pub fn matches_empty(&self) -> (result: bool)
        ensures
            result == self.can_match_empty(),
    {
        self.can_match_empty
    }

    /// The successive matches in a text, each with the expanded template.
    pub fn matches(&self, text: &str, template: &str) -> (matches: Vec<RegexMatch>)
        ensures
            match_views(matches@) == regex_matches(
                self.source().0,
                self.source().1,
                self.source().2,
                text@,
                template@,
            ),
            in_order(match_views(matches@), encode_utf8(text@).len() as int),
            taken_from(match_views(matches@), encode_utf8(text@)),
    {
        find_matches(&self.regex, text, template)
    }

    /// Checks that a template refers to groups of this pattern only.
    pub fn validate_references(&self, template: &str) -> (result: Result<(), String>)
        ensures
            match result {
                Ok(()) => reference_error(
                    template@,
                    regex_group_count(self.source().0),
                    known_names(regex_group_names(self.source().0)),
                ) is None,
                Err(message) => reference_error(
                    template@,
                    regex_group_count(self.source().0),
                    known_names(regex_group_names(self.source().0)),
                ) == Some(message@),
            },
    {
        let count = group_count(&self.regex);
        let all = group_names(&self.regex);
        let mut names: Vec<String> = Vec::new();
        let mut index: usize = 0;
        let ghost shown = all@.map(|i: int, name: Option<String>| name_view(name));
        assert(shown.take(0) =~= Seq::<Option<Seq<char>>>::empty());
        assert(text::views(names@) =~= Seq::<Seq<char>>::empty());
        while index < all.len()
            invariant
                index <= all.len(),
                shown == all@.map(|i: int, name: Option<String>| name_view(name)),
                text::views(names@) == known_names(shown.take(index as int)),
            decreases all.len() - index,
        {
            proof {
                assert(shown.take(index + 1).drop_last() =~= shown.take(index as int));
                assert(shown.take(index + 1).last() == name_view(all@[index as int]));
            }
            if let Some(name) = &all[index] {
                let ghost before = names@;
                names.push(name.clone());
                assert(text::views(names@) =~= text::views(before).push(name@));
            }
            index += 1;
        }
        assert(shown.take(shown.len() as int) =~= shown);
        validate_replacement_references(count, &names, template)
    }
}

/// The names among optional names.
pub open spec fn known_names(names: Seq<Option<Seq<char>>>) -> Seq<Seq<char>>
    decreases names.len(),
{
    if names.len() == 0 {
        Seq::empty()
    } else {
        match names.last() {
            Some(name) => known_names(names.drop_last()).push(name),
            None => known_names(names.drop_last()),
        }
    }
}

/// What a reference in a template refers to.
pub enum ReferenceSpec {
    Number(nat),
    Named(Seq<char>),
}

/// A reference in a template, with the characters that make it up.
pub struct TokenSpec {
    pub token: Seq<char>,
    pub reference: ReferenceSpec,
}

/// What a reference in a template refers to.
#[derive(Clone, Debug, PartialEq, Eq)]
pub enum ReplacementReference {
    Number(usize),
    Named(String),
}

/// A reference in a template.
#[derive(Clone, Debug, PartialEq, Eq)]
pub struct ReplacementToken {
    pub token: String,
    pub reference: ReplacementReference,
}

impl View for ReplacementToken {
    type V = TokenSpec;

    open spec fn view(&self) -> TokenSpec {
        TokenSpec {
            token: self.token@,
            reference: match self.reference {
                ReplacementReference::Number(index) => ReferenceSpec::Number(index as nat),
                ReplacementReference::Named(name) => ReferenceSpec::Named(name@),
            },
        }
    }
}

/// Whether a character can stand in an unbraced reference.
pub open spec fn is_word(character: char) -> bool {
    '0' <= character <= '9' || 'a' <= character <= 'z' || 'A' <= character <= 'Z' || character
        == '_'
}

/// The end of the word that starts at `from`.
pub open spec fn word_end(chars: Seq<char>, from: int) -> int
    decreases chars.len() - from,
{
    if from < 0 || from >= chars.len() || !is_word(chars[from]) {
        from
    } else {
        word_end(chars, from + 1)
    }
}

/// The value of decimal digits; `None` when another character is among them.
pub open spec fn digits_value(chars: Seq<char>) -> Option<nat>
    decreases chars.len(),
{
    if chars.len() == 0 {
        Some(0)
    } else {
        match digits_value(chars.drop_last()) {
            Some(value) => if '0' <= chars.last() <= '9' {
                Some((10 * value + (chars.last() as nat - '0' as nat)) as nat)
            } else {
                None
            },
            None => None,
        }
    }
}

/// A number as `usize` reads it from text: digits, with a plus sign before them at most.
pub open spec fn parsed_number(chars: Seq<char>) -> Option<nat> {
    let digits = if chars.len() > 0 && chars[0] == '+' {
        chars.drop_first()
    } else {
        chars
    };
    if digits.len() == 0 {
        None
    } else {
        match digits_value(digits) {
            Some(value) => if value <= usize::MAX {
                Some(value)
            } else {
                None
            },
            None => None,
        }
    }
}

/// The token for a reference with these characters.
pub open spec fn token_spec(token: Seq<char>, reference: Seq<char>) -> TokenSpec {
    TokenSpec {
        token,
        reference: match parsed_number(reference) {
            Some(number) => ReferenceSpec::Number(number),
            None => ReferenceSpec::Named(reference),
        },
    }
}

/// The references in a template from `cursor` on. `$$` is a literal dollar sign, `${..}` takes
/// everything up to the brace, and otherwise a word of letters, digits and underscores follows.
pub open spec fn tokens_from(chars: Seq<char>, cursor: int) -> Seq<TokenSpec>
    decreases chars.len() - cursor,
    when cursor >= 0
    via tokens_from_decreases
{
    match text::next_index(chars, cursor, '$') {
        None => Seq::empty(),
        Some(start) => if start + 1 >= chars.len() {
            Seq::empty()
        } else if chars[start + 1] == '$' {
            tokens_from(chars, start + 2)
        } else if chars[start + 1] == '{' {
            match text::next_index(chars, start + 2, '}') {
                None => tokens_from(chars, start + 1),
                Some(close) => seq![
                    token_spec(
                        chars.subrange(start, close + 1),
                        chars.subrange(start + 2, close),
                    ),
                ] + tokens_from(chars, close + 1),
            }
        } else {
            let end = word_end(chars, start + 1);
            if end == start + 1 {
                tokens_from(chars, start + 1)
            } else {
                seq![token_spec(chars.subrange(start, end), chars.subrange(start + 1, end))]
                    + tokens_from(chars, end)
            }
        },
    }
}

proof fn word_end_bounds(chars: Seq<char>, from: int)
    requires
        0 <= from,
    ensures
        from <= word_end(chars, from),
        from <= chars.len() ==> word_end(chars, from) <= chars.len(),
    decreases chars.len() - from,
{
    if from < chars.len() && is_word(chars[from]) {
        word_end_bounds(chars, from + 1);
    }
}

#[via_fn]
proof fn tokens_from_decreases(chars: Seq<char>, cursor: int) {
    text::next_index_bounds(chars, cursor, '$');
    if let Some(start) = text::next_index(chars, cursor, '$') {
        text::next_index_bounds(chars, start + 2, '}');
        word_end_bounds(chars, start + 1);
    }
}

fn word_end_from(chars: &[char], from: usize) -> (end: usize)
    requires
        from <= chars.len(),
    ensures
        end == word_end(chars@, from as int),
        from <= end <= chars.len(),
{
    let mut index: usize = from;
    while index < chars.len()
        invariant_except_break
            from <= index <= chars.len(),
            word_end(chars@, from as int) == word_end(chars@, index as int),
        ensures
            from <= index <= chars.len(),
            index == word_end(chars@, from as int),
        decreases chars.len() - index,
    {
        let character = chars[index];
        let word = ('0' <= character && character <= '9') || ('a' <= character && character <= 'z')
            || ('A' <= character && character <= 'Z') || character == '_';
        if !word {
            break;
        }
        index += 1;
    }
    index
}

fn parse_number(chars: &[char]) -> (result: Option<usize>)
    ensures
        match result {
            Some(number) => parsed_number(chars@) == Some(number as nat),
            None => parsed_number(chars@) is None,
        },
{
    let digits = if chars.len() > 0 && chars[0] == '+' {
        slice_subrange(chars, 1, chars.len())
    } else {
        chars
    };
    proof {
        if chars@.len() > 0 && chars@[0] == '+' {
            assert(digits@ =~= chars@.drop_first());
        }
    }
    if digits.len() == 0 {
        return None;
    }
    let mut value: usize = 0;
    let mut index: usize = 0;
    assert(digits@.take(0) =~= Seq::<char>::empty());
    while index < digits.len()
        invariant
            index <= digits.len(),
            parsed_number(chars@) == (match digits_value(digits@) {
                Some(value) => if value <= usize::MAX {
                    Some(value)
                } else {
                    None
                },
                None => None,
            }),
            digits_value(digits@.take(index as int)) == Some(value as nat),
        decreases digits.len() - index,
    {
        let character = digits[index];
        proof {
            assert(digits@.take(index + 1).drop_last() =~= digits@.take(index as int));
            assert(digits@.take(index + 1).last() == character);
        }
        if !('0' <= character && character <= '9') {
            proof {
                digits_fail(digits@, index + 1);
            }
            return None;
        }
        let digit: usize = (character as u32 - '0' as u32) as usize;
        let next = match value.checked_mul(10) {
            Some(scaled) => scaled.checked_add(digit),
            None => None,
        };
        match next {
            Some(next) => {
                value = next;
            },
            None => {
                proof {
                    digits_grow(digits@, index + 1);
                }
                return None;
            },
        }
        index += 1;
    }
    assert(digits@.take(digits@.len() as int) =~= digits@);
    Some(value)
}

proof fn digits_fail(chars: Seq<char>, count: int)
    requires
        0 <= count <= chars.len(),
        digits_value(chars.take(count)) is None,
    ensures
        digits_value(chars) is None,
    decreases chars.len(),
{
    if count < chars.len() {
        assert(chars.drop_last().take(count) =~= chars.take(count));
        digits_fail(chars.drop_last(), count);
    } else {
        assert(chars.take(count) =~= chars);
    }
}

proof fn digits_grow(chars: Seq<char>, count: int)
    requires
        0 <= count <= chars.len(),
        digits_value(chars.take(count)) is Some,
    ensures
        digits_value(chars) matches Some(value) ==> value >= digits_value(chars.take(count))->Some_0,
    decreases chars.len(),
{
    if count < chars.len() {
        assert(chars.drop_last().take(count) =~= chars.take(count));
        digits_grow(chars.drop_last(), count);
    } else {
        assert(chars.take(count) =~= chars);
    }
}

/// The mathematical values of tokens.
pub open spec fn token_views(tokens: Seq<ReplacementToken>) -> Seq<TokenSpec> {
    tokens.map(|i: int, token: ReplacementToken| token@)
}

fn make_token(token: &[char], reference: &[char]) -> (made: ReplacementToken)
    ensures
        made@ == token_spec(token@, reference@),
{
    ReplacementToken {
        token: string_of(token),
        reference: match parse_number(reference) {
            Some(number) => ReplacementReference::Number(number),
            None => ReplacementReference::Named(string_of(reference)),
        },
    }
}

/// The references in a template.
pub fn replacement_tokens(template: &str) -> (tokens: Vec<ReplacementToken>)
    ensures
        token_views(tokens@) == tokens_from(template@, 0),
{
    let chars = chars_of(template);
    let mut tokens: Vec<ReplacementToken> = Vec::new();
    let mut cursor: usize = 0;
    assert(token_views(tokens@) + tokens_from(template@, 0) =~= tokens_from(template@, 0));
    while cursor < chars.len()
        invariant_except_break
            cursor <= chars.len(),
            chars@ == template@,
            token_views(tokens@) + tokens_from(template@, cursor as int) == tokens_from(
                template@,
                0,
            ),
        ensures
            token_views(tokens@) == tokens_from(template@, 0),
        decreases chars.len() - cursor,
    {
        let ghost before = token_views(tokens@);
        let start = match find_from(chars.as_slice(), cursor, '$') {
            Some(start) => start,
            None => {
                assert(before + Seq::<TokenSpec>::empty() =~= before);
                break;
            },
        };
        if start + 1 >= chars.len() {
            assert(before + Seq::<TokenSpec>::empty() =~= before);
            break;
        }
        let next = chars[start + 1];
        if next == '$' {
            cursor = start + 2;
        } else if next == '{' {
            match find_from(chars.as_slice(), start + 2, '}') {
                None => {
                    cursor = start + 1;
                },
                Some(close) => {
                    let token = make_token(
                        slice_subrange(chars.as_slice(), start, close + 1),
                        slice_subrange(chars.as_slice(), start + 2, close),
                    );
                    let ghost shown = token@;
                    let ghost old_tokens = tokens@;
                    tokens.push(token);
                    proof {
                        assert(token_views(tokens@) =~= before.push(shown));
                        assert(before.push(shown) + tokens_from(template@, close + 1) =~= before + (
                        seq![shown] + tokens_from(template@, close + 1)));
                    }
                    cursor = close + 1;
                },
            }
        } else {
            let end = word_end_from(chars.as_slice(), start + 1);
            if end == start + 1 {
                cursor = start + 1;
            } else {
                let token = make_token(
                    slice_subrange(chars.as_slice(), start, end),
                    slice_subrange(chars.as_slice(), start + 1, end),
                );
                let ghost shown = token@;
                tokens.push(token);
                proof {
                    assert(token_views(tokens@) =~= before.push(shown));
                    assert(before.push(shown) + tokens_from(template@, end as int) =~= before + (
                    seq![shown] + tokens_from(template@, end as int)));
                }
                cursor = end;
            }
        }
        proof {
            if cursor >= chars.len() {
                tokens_end(template@, cursor as int);
                assert(token_views(tokens@) + Seq::<TokenSpec>::empty() =~= token_views(tokens@));
            }
        }
    }
    proof {
        if chars.len() == 0 {
            tokens_end(template@, 0);
        }
    }
    tokens
}

proof fn tokens_end(chars: Seq<char>, cursor: int)
    requires
        cursor >= chars.len(),
    ensures
        tokens_from(chars, cursor) == Seq::<TokenSpec>::empty(),
{
}

/// Whether a reference has a group.
pub open spec fn is_defined(reference: ReferenceSpec, groups: nat, names: Seq<Seq<char>>) -> bool {
    match reference {
        ReferenceSpec::Number(index) => index < groups,
        ReferenceSpec::Named(name) => names.contains(name),
    }
}

/// The first reference without a group.
pub open spec fn undefined_token(
    tokens: Seq<TokenSpec>,
    groups: nat,
    names: Seq<Seq<char>>,
) -> Option<Seq<char>>
    decreases tokens.len(),
{
    if tokens.len() == 0 {
        None
    } else if !is_defined(tokens[0].reference, groups, names) {
        Some(tokens[0].token)
    } else {
        undefined_token(tokens.drop_first(), groups, names)
    }
}

/// The groups that a pattern defines, in words.
pub open spec fn groups_in_words(numbered: nat, names: Seq<Seq<char>>) -> Seq<char> {
    let numbers = if numbered == 1 {
        "group 1"@
    } else {
        "groups 1-"@ + text::decimal(numbered)
    };
    let named = if names.len() == 1 {
        "named group: "@ + names[0]
    } else {
        "named groups: "@ + text::joined(names, ", "@)
    };
    if numbered == 0 && names.len() == 0 {
        "no capture groups"@
    } else if names.len() == 0 {
        numbers
    } else if numbered == 0 {
        named
    } else {
        numbers + "; "@ + named
    }
}

/// Why a template cannot be used with a pattern of these groups.
pub open spec fn reference_error(
    template: Seq<char>,
    groups: nat,
    names: Seq<Seq<char>>,
) -> Option<Seq<char>> {
    match undefined_token(tokens_from(template, 0), groups, names) {
        Some(token) => Some(
            "Replacement references an undefined capture group: "@ + token
                + ". The pattern defines "@ + groups_in_words((groups - 1) as nat, names)
                + ". Fix the replacement; nothing was written."@,
        ),
        None => None,
    }
}

fn available_groups(numbered: usize, names: &Vec<String>) -> (words: String)
    ensures
        words@ == groups_in_words(numbered as nat, text::views(names@)),
{
    assert(text::views(names@).len() == names@.len());
    assert(names@.take(names@.len() as int) =~= names@);
    let numbers = if numbered == 1 {
        "group 1".to_owned()
    } else {
        let mut numbers = "groups 1-".to_owned();
        numbers.append(decimal_text(numbered as u64).as_str());
        numbers
    };
    let named = if names.len() == 1 {
        let mut named = "named group: ".to_owned();
        named.append(names[0].as_str());
        named
    } else {
        let mut named = "named groups: ".to_owned();
        named.append(join_first(names.as_slice(), names.len(), ", ").as_str());
        named
    };
    if numbered == 0 && names.len() == 0 {
        "no capture groups".to_owned()
    } else if names.len() == 0 {
        numbers
    } else if numbered == 0 {
        named
    } else {
        let mut words = numbers;
        words.append("; ");
        words.append(named.as_str());
        words
    }
}

fn has_name(names: &Vec<String>, wanted: &str) -> (found: bool)
    ensures
        found == text::views(names@).contains(wanted@),
{
    let mut index: usize = 0;
    while index < names.len()
        invariant
            index <= names.len(),
            forall|i: int| 0 <= i < index ==> #[trigger] text::views(names@)[i] != wanted@,
        decreases names.len() - index,
    {
        if same_text(names[index].as_str(), wanted) {
            assert(text::views(names@)[index as int] == wanted@);
            return true;
        }
        index += 1;
    }
    false
}

/// Checks that a template refers to existing groups only. `groups` counts the whole match.
pub fn validate_replacement_references(groups: usize, names: &Vec<String>, template: &str) -> (
result: Result<(), String>)
    requires
        groups >= 1,
    ensures
        match result {
            Ok(()) => reference_error(template@, groups as nat, text::views(names@)) is None,
            Err(message) => reference_error(template@, groups as nat, text::views(names@)) == Some(
                message@,
            ),
        },
{
    let tokens = replacement_tokens(template);
    let ghost all = tokens_from(template@, 0);
    let mut index: usize = 0;
    assert(all.skip(0) =~= all);
    while index < tokens.len()
        invariant
            index <= tokens.len(),
            groups >= 1,
            all == tokens_from(template@, 0),
            token_views(tokens@) == all,
            undefined_token(all, groups as nat, text::views(names@)) == undefined_token(
                all.skip(index as int),
                groups as nat,
                text::views(names@),
            ),
        decreases tokens.len() - index,
    {
        let token = &tokens[index];
        proof {
            assert(all[index as int] == token@);
            assert(all.skip(index as int)[0] == token@);
            assert(all.skip(index as int).drop_first() =~= all.skip(index + 1));
        }
        let defined = match &token.reference {
            ReplacementReference::Number(number) => *number < groups,
            ReplacementReference::Named(name) => has_name(names, name.as_str()),
        };
        if !defined {
            let mut message = "Replacement references an undefined capture group: ".to_owned();
            message.append(token.token.as_str());
            message.append(". The pattern defines ");
            message.append(available_groups(groups - 1, names).as_str());
            message.append(". Fix the replacement; nothing was written.");
            return Err(message);
        }
        index += 1;
    }
    assert(all.skip(all.len() as int) =~= Seq::<TokenSpec>::empty());
    Ok(())
}

} // verus!
