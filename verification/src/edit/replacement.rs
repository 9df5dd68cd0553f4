//! Applying the matches of a pattern to a document: previews for a dry run, the check that the
//! result can be written, and the new content.

use crate::bytes;
use crate::bytes::count_line_feeds;
use crate::edit::document;
use crate::edit::document::{limit_in_bytes, TextDocument};
use crate::edit::pattern;
use crate::edit::pattern::{CompiledRegex, MatchSpec, RegexMatch};
use crate::encoding::stats;
use crate::encoding::utf8;
use crate::text;
use crate::text::{chars_of, decimal_text, escape_breaks, mib_text, same_bytes, string_of};
use vstd::prelude::*;
use vstd::slice::{slice_subrange, slice_to_vec};
use vstd::string::*;
use vstd::utf8::*;

verus! {

/// The most characters of a match or its replacement that a preview shows.
pub const PREVIEW_CHARS: usize = 160;

/// Whether a match changes anything: an empty match with an empty replacement does not.
pub open spec fn is_kept(found: MatchSpec) -> bool {
    !(found.start == found.end && found.expanded.len() == 0)
}

/// The matches that change something.
pub open spec fn kept(matches: Seq<MatchSpec>) -> Seq<MatchSpec>
    decreases matches.len(),
{
    if matches.len() == 0 {
        Seq::empty()
    } else if is_kept(matches.last()) {
        kept(matches.drop_last()).push(matches.last())
    } else {
        kept(matches.drop_last())
    }
}

/// Whether a text ends with a line feed after more of it was seen.
pub open spec fn ends_after(ends: bool, piece: Seq<char>) -> bool {
    if piece.len() == 0 {
        ends
    } else {
        piece.last() == '\n'
    }
}

/// [`ends_after`] for a piece given as UTF-8.
pub open spec fn ends_after_bytes(ends: bool, piece: Seq<u8>) -> bool {
    if piece.len() == 0 {
        ends
    } else {
        piece.last() == 10
    }
}

/// How far a replacement has come.
pub struct Progress {
    /// The new content so far.
    pub bytes: Seq<u8>,
    /// How much of the raw content is dealt with.
    pub raw: int,
    /// How much of the logical text is dealt with.
    pub logical: int,
    /// Whether the new text so far ends with a line feed.
    pub ends_newline: bool,
    /// The number of matches applied.
    pub count: nat,
}

/// Nothing done yet.
pub open spec fn no_progress() -> Progress {
    Progress { bytes: Seq::empty(), raw: 0, logical: 0, ends_newline: false, count: 0 }
}

/// Whether a result of this many bytes is over the limit.
pub open spec fn oversized(len: nat, limit_mib: u64) -> bool {
    stats::saturated(len) > document::limit_bytes(limit_mib)
}

/// The message about a result over the limit.
pub open spec fn oversized_message(path: Seq<char>, len: nat, limit_mib: u64) -> Seq<char> {
    "Refusing to write "@ + path + ": the result would be "@ + text::mib(stats::saturated(len))
        + " MiB, over the "@ + text::decimal(limit_mib as nat)
        + " MiB safety limit. Narrow the pattern."@
}

/// The message about a match that starts or ends inside a character.
pub open spec fn boundary_message() -> Seq<char> {
    "Internal edit failure: a logical range did not end on a character boundary."@
}

/// The content grown by a piece, as long as it stays within the limit.
pub open spec fn grown(
    document: TextDocument,
    bytes: Seq<u8>,
    piece: Seq<u8>,
    limit_mib: u64,
) -> Result<Seq<u8>, Seq<char>> {
    if oversized((bytes + piece).len(), limit_mib) {
        Err(oversized_message(document.display(), (bytes + piece).len(), limit_mib))
    } else {
        Ok(bytes + piece)
    }
}

/// One match applied: the raw bytes before it, then its replacement in the document's encoding.
pub open spec fn applied(
    document: TextDocument,
    before: Progress,
    found: MatchSpec,
    limit_mib: u64,
) -> Result<Progress, Seq<char>> {
    if !is_kept(found) {
        Ok(before)
    } else {
        match (document.raw_at(found.start), document.raw_at(found.end)) {
            (Some(raw_start), Some(raw_end)) => {
                match grown(
                    document,
                    before.bytes,
                    document.raw().subrange(before.raw, raw_start),
                    limit_mib,
                ) {
                    Err(message) => Err(message),
                    Ok(unchanged) => match document.target_bytes(found.expanded) {
                        None => Err(document.unencodable()),
                        Some(encoded) => match grown(document, unchanged, encoded, limit_mib) {
                            Err(message) => Err(message),
                            Ok(bytes) => Ok(
                                Progress {
                                    bytes,
                                    raw: raw_end,
                                    logical: found.end,
                                    ends_newline: ends_after(
                                        ends_after_bytes(
                                            before.ends_newline,
                                            encode_utf8(document.logical()).subrange(
                                                before.logical,
                                                found.start,
                                            ),
                                        ),
                                        found.expanded,
                                    ),
                                    count: before.count + 1,
                                },
                            ),
                        },
                    },
                }
            },
            _ => Err(boundary_message()),
        }
    }
}

/// All matches applied in order; the first failure ends it.
pub open spec fn all_applied(
    document: TextDocument,
    matches: Seq<MatchSpec>,
    limit_mib: u64,
) -> Result<Progress, Seq<char>>
    decreases matches.len(),
{
    if matches.len() == 0 {
        Ok(no_progress())
    } else {
        match all_applied(document, matches.drop_last(), limit_mib) {
            Ok(before) => applied(document, before, matches.last(), limit_mib),
            Err(message) => Err(message),
        }
    }
}

/// The content with all matches applied, before its final line end is settled.
pub open spec fn unclosed(document: TextDocument, matches: Seq<MatchSpec>, limit_mib: u64) -> Seq<
    u8,
> {
    let done = all_applied(document, matches, limit_mib)->Ok_0;
    done.bytes + document.raw().subrange(done.raw, document.raw().len() as int)
}

/// The content without a suffix that it ends with.
pub open spec fn without_suffix(bytes: Seq<u8>, suffix: Seq<u8>) -> Seq<u8> {
    if bytes.len() >= suffix.len() && bytes.skip(bytes.len() - suffix.len()) == suffix {
        bytes.take(bytes.len() - suffix.len())
    } else {
        bytes
    }
}

/// The new content: the rest of the raw bytes follows, and a final line end is there after the
/// replacement when it was there before.
pub open spec fn finished(document: TextDocument, done: Progress, limit_mib: u64) -> Result<
    Seq<u8>,
    Seq<char>,
> {
    let logical = encode_utf8(document.logical());
    match grown(
        document,
        done.bytes,
        document.raw().subrange(done.raw, document.raw().len() as int),
        limit_mib,
    ) {
        Err(message) => Err(message),
        Ok(bytes) => {
            let ends = ends_after_bytes(
                done.ends_newline,
                logical.subrange(done.logical, logical.len() as int),
            );
            match document.target_bytes("\n"@) {
                None => Err(document.unencodable()),
                Some(newline) => if document.trailing_newline() && !ends {
                    grown(document, bytes, newline, limit_mib)
                } else if !document.trailing_newline() && ends {
                    Ok(without_suffix(bytes, newline))
                } else {
                    Ok(bytes)
                },
            }
        },
    }
}

/// What replacing the matches comes to: the new content and the number of replacements, or why
/// it cannot be written.
pub open spec fn replacement_outcome(
    document: TextDocument,
    matches: Seq<MatchSpec>,
    limit_mib: u64,
) -> Result<(Seq<u8>, nat), Seq<char>> {
    match all_applied(document, matches, limit_mib) {
        Err(message) => Err(message),
        Ok(done) => match finished(document, done, limit_mib) {
            Err(message) => Err(message),
            Ok(bytes) => Ok((bytes, done.count)),
        },
    }
}

/// Without a match that changes anything, a content within the limit comes out as it was.
pub proof fn nothing_kept_changes_nothing(
    document: TextDocument,
    matches: Seq<MatchSpec>,
    limit_mib: u64,
)
    requires
        document.wf(),
        kept(matches).len() == 0,
        !oversized(document.raw().len(), limit_mib),
        document.target_bytes("\n"@) is Some,
    ensures
        replacement_outcome(document, matches, limit_mib) == Ok::<(Seq<u8>, nat), Seq<char>>(
            (document.raw(), 0),
        ),
{
    kept_none_applies_nothing(document, matches, limit_mib);
    let raw = document.raw();
    assert(Seq::<u8>::empty() + raw.subrange(0, raw.len() as int) =~= raw);
    let logical = encode_utf8(document.logical());
    assert(logical.subrange(0, logical.len() as int) =~= logical);
    last_byte_of(document.logical());
}

/// A replacement that can be made applies exactly the matches that an analysis counts.
pub proof fn applies_every_kept_match(
    document: TextDocument,
    matches: Seq<MatchSpec>,
    limit_mib: u64,
)
    requires
        replacement_outcome(document, matches, limit_mib) is Ok,
    ensures
        replacement_outcome(document, matches, limit_mib)->Ok_0.1 == kept(matches).len(),
{
    applied_count(document, matches, limit_mib);
}

proof fn applied_count(document: TextDocument, matches: Seq<MatchSpec>, limit_mib: u64)
    requires
        all_applied(document, matches, limit_mib) is Ok,
    ensures
        all_applied(document, matches, limit_mib)->Ok_0.count == kept(matches).len(),
    decreases matches.len(),
{
    if matches.len() > 0 {
        applied_count(document, matches.drop_last(), limit_mib);
    }
}

/// Where the raw bytes that no match covers begin, after so many matches.
pub open spec fn gap_start(document: TextDocument, found: Seq<MatchSpec>, count: int) -> int {
    if count == 0 {
        0
    } else {
        document.raw_at(found[count - 1].end)->Some_0
    }
}

/// The raw bytes before each match, as they were, followed by its replacement in the document's
/// encoding.
pub open spec fn spliced(document: TextDocument, found: Seq<MatchSpec>) -> Seq<u8>
    decreases found.len(),
{
    if found.len() == 0 {
        Seq::empty()
    } else {
        let start = document.raw_at(found.last().start)->Some_0;
        let from = gap_start(document, found, found.len() - 1);
        spliced(document, found.drop_last()) + document.raw().subrange(from, start)
            + document.target_bytes(found.last().expanded)->Some_0
    }
}

/// The new content is the raw content with just the matches that change something replaced: every
/// raw byte outside of them stays. Only a final line end may be added, where there was one, or
/// taken away, where there was none.
pub proof fn bytes_outside_matches_stay(
    document: TextDocument,
    matches: Seq<MatchSpec>,
    limit_mib: u64,
)
    requires
        replacement_outcome(document, matches, limit_mib) is Ok,
    ensures
        ({
            let bytes = replacement_outcome(document, matches, limit_mib)->Ok_0.0;
            let found = kept(matches);
            let from = gap_start(document, found, found.len() as int);
            let body = spliced(document, found) + document.raw().subrange(
                from,
                document.raw().len() as int,
            );
            let newline = document.target_bytes("\n"@)->Some_0;
            ||| bytes == body
            ||| document.trailing_newline() && bytes == body + newline
            ||| !document.trailing_newline() && body == bytes + newline
        }),
{
    applied_is_spliced(document, matches, limit_mib);
    let done = all_applied(document, matches, limit_mib)->Ok_0;
    let body = done.bytes + document.raw().subrange(done.raw, document.raw().len() as int);
    let newline = document.target_bytes("\n"@)->Some_0;
    if without_suffix(body, newline) != body {
        assert(body =~= without_suffix(body, newline) + newline);
    }
}

proof fn applied_is_spliced(document: TextDocument, matches: Seq<MatchSpec>, limit_mib: u64)
    requires
        all_applied(document, matches, limit_mib) is Ok,
    ensures
        ({
            let done = all_applied(document, matches, limit_mib)->Ok_0;
            let found = kept(matches);
            &&& done.bytes == spliced(document, found)
            &&& done.raw == gap_start(document, found, found.len() as int)
        }),
    decreases matches.len(),
{
    if matches.len() > 0 {
        let rest = matches.drop_last();
        applied_is_spliced(document, rest, limit_mib);
        if is_kept(matches.last()) {
            let found = kept(matches);
            assert(found.drop_last() =~= kept(rest));
            assert(gap_start(document, found, found.len() - 1) == gap_start(
                document,
                kept(rest),
                kept(rest).len() as int,
            ));
        }
    }
}

proof fn kept_none_applies_nothing(
    document: TextDocument,
    matches: Seq<MatchSpec>,
    limit_mib: u64,
)
    requires
        kept(matches).len() == 0,
    ensures
        all_applied(document, matches, limit_mib) == Ok::<Progress, Seq<char>>(no_progress()),
    decreases matches.len(),
{
    if matches.len() > 0 {
        kept_none_applies_nothing(document, matches.drop_last(), limit_mib);
    }
}

/// The UTF-8 of a text ends with a line feed exactly when the text does.
pub proof fn last_byte_of(text: Seq<char>)
    ensures
        (encode_utf8(text).len() == 0) == (text.len() == 0),
        text.len() > 0 ==> ((encode_utf8(text).last() == 10) == (text.last() == '\n')),
{
    if text.len() == 0 {
        assert(encode_utf8(text) =~= Seq::<u8>::empty());
    } else {
        last_char_bytes(text.drop_last(), text.last());
        assert(text.drop_last().push(text.last()) =~= text);
    }
}

proof fn last_char_bytes(text: Seq<char>, character: char)
    ensures
        encode_utf8(text.push(character)).len() > 0,
        (encode_utf8(text.push(character)).last() == 10) == (character == '\n'),
{
    let one = seq![character];
    utf8::encode_utf8_concat(text, one);
    assert(text + one =~= text.push(character));
    assert(one.drop_first() =~= Seq::<char>::empty());
    assert(encode_utf8(one.drop_first()) =~= Seq::<u8>::empty());
    assert(encode_utf8(one) =~= encode_scalar(character as u32));
    let value = character as u32;
    if value > 0x7F {
        assert((0x80u8 | (value & 0x3f) as u8) >= 0x80u8) by (bit_vector);
    } else {
        assert((value & 0x7f) as u8 == value) by (bit_vector)
            requires
                value <= 0x7F,
        ;
    }
    assert(encode_utf8(text.push(character)).last() == encode_scalar(value).last());
}

/// The last bytes of a content, at most so many.
pub open spec fn last_bytes(content: Seq<u8>, most: int) -> Seq<u8> {
    if content.len() <= most {
        content
    } else {
        content.skip(content.len() - most)
    }
}

/// The result of a replacement, or only its length and its last bytes.
pub struct ReplacementOutput {
    bytes: Option<Vec<u8>>,
    len: usize,
    /// How many of the last bytes are kept in any case.
    window: usize,
    /// The last bytes, where not all are kept.
    tail: Vec<u8>,
}

impl ReplacementOutput {
    /// Whether this stands for the content `seen`.
    pub closed spec fn holds(&self, seen: Seq<u8>) -> bool {
        &&& self.len == stats::saturated(seen.len())
        &&& self.bytes matches Some(bytes) ==> bytes@ == seen
    }

    /// Whether the last bytes are known too.
    spec fn tracks(&self, seen: Seq<u8>) -> bool {
        &&& self.holds(seen)
        &&& self.bytes is None ==> self.tail@ == last_bytes(seen, self.window as int)
    }

    /// The length of the result.
    pub closed spec fn length(&self) -> usize {
        self.len
    }

    /// How many of the last bytes are known in any case.
    spec fn reach(&self) -> usize {
        self.window
    }

    /// Whether the bytes are kept.
    pub closed spec fn materialized(&self) -> bool {
        self.bytes is Some
    }

    fn new(materialize: bool, window: usize) -> (output: Self)
        ensures
            output.tracks(Seq::empty()),
            output.materialized() == materialize,
            output.reach() == window,
    {
        let bytes: Option<Vec<u8>> = if materialize {
            Some(Vec::new())
        } else {
            None
        };
        ReplacementOutput { bytes, len: 0, window, tail: Vec::new() }
    }

    /// The length of the result.
    pub fn len(&self) -> (len: usize)
        ensures
            len == self.length(),
    {
        self.len
    }

    fn extend_tail(&mut self, piece: &[u8], seen: Ghost<Seq<u8>>)
        requires
            old(self).tail@ == last_bytes(seen@, old(self).window as int),
        ensures
            final(self).tail@ == last_bytes(seen@ + piece@, old(self).window as int),
            final(self).bytes == old(self).bytes,
            final(self).len == old(self).len,
            final(self).window == old(self).window,
    {
        let ghost all = seen@ + piece@;
        let window = self.window;
        if piece.len() >= window {
            self.tail = slice_to_vec(slice_subrange(piece, piece.len() - window, piece.len()));
            assert(self.tail@ =~= last_bytes(all, window as int));
            return;
        }
        let held = self.tail.len();
        let drop: usize = if held > window - piece.len() {
            held - (window - piece.len())
        } else {
            0
        };
        let mut tail = slice_to_vec(slice_subrange(self.tail.as_slice(), drop, held));
        tail.extend_from_slice(piece);
        assert(tail@ =~= last_bytes(all, window as int));
        self.tail = tail;
    }

    fn extend(
        &mut self,
        piece: &[u8],
        document: &TextDocument,
        limit_mib: u64,
        seen: Ghost<Seq<u8>>,
    ) -> (result: Result<(), String>)
        requires
            old(self).tracks(seen@),
        ensures
            final(self).materialized() == old(self).materialized(),
            final(self).reach() == old(self).reach(),
            match result {
                Ok(()) => {
                    &&& grown(*document, seen@, piece@, limit_mib) == Ok::<Seq<u8>, Seq<char>>(
                        seen@ + piece@,
                    )
                    &&& final(self).tracks(seen@ + piece@)
                },
                Err(message) => {
                    &&& grown(*document, seen@, piece@, limit_mib) == Err::<Seq<u8>, Seq<char>>(
                        message@,
                    )
                    &&& *final(self) == *old(self)
                },
            },
    {
        let projected = match self.len.checked_add(piece.len()) {
            Some(projected) => projected,
            None => usize::MAX,
        };
        if projected as u64 > limit_in_bytes(limit_mib) {
            let mut message = "Refusing to write ".to_owned();
            message.append(document.display_path());
            message.append(": the result would be ");
            message.append(mib_text(projected as u64).as_str());
            message.append(" MiB, over the ");
            message.append(decimal_text(limit_mib).as_str());
            message.append(" MiB safety limit. Narrow the pattern.");
            return Err(message);
        }
        self.len = projected;
        let mut kept: Option<Vec<u8>> = None;
        core::mem::swap(&mut kept, &mut self.bytes);
        if let Some(mut bytes) = kept {
            bytes.extend_from_slice(piece);
            assert(bytes@ =~= seen@ + piece@);
            self.bytes = Some(bytes);
        } else {
            self.extend_tail(piece, Ghost(seen@));
        }
        Ok(())
    }

    fn remove_suffix(&mut self, suffix: &[u8], seen: Ghost<Seq<u8>>)
        requires
            old(self).tracks(seen@),
            old(self).reach() == suffix@.len(),
        ensures
            final(self).materialized() == old(self).materialized(),
            old(self).materialized() || seen@.len() <= usize::MAX ==> final(self).holds(
                without_suffix(seen@, suffix@),
            ),
    {
        let mut kept: Option<Vec<u8>> = None;
        core::mem::swap(&mut kept, &mut self.bytes);
        match kept {
            Some(mut bytes) => {
                assert(bytes@.len() == bytes.len());
                if bytes.len() >= suffix.len() {
                    let cut: usize = bytes.len() - suffix.len();
                    let tail = slice_subrange(bytes.as_slice(), cut, bytes.len());
                    assert(tail@ =~= seen@.skip(seen@.len() - suffix@.len()));
                    if same_bytes(tail, suffix) {
                        bytes.truncate(cut);
                        assert(bytes@ =~= seen@.take(cut as int));
                        self.len = cut;
                    }
                }
                self.bytes = Some(bytes);
            },
            None => {
                let present = self.tail.len() == suffix.len() && same_bytes(
                    self.tail.as_slice(),
                    suffix,
                );
                proof {
                    if seen@.len() == suffix@.len() {
                        assert(seen@.skip(0) =~= seen@);
                    }
                }
                if present && self.len >= suffix.len() {
                    self.len = self.len - suffix.len();
                }
            },
        }
    }

    /// The bytes, where they were kept.
    pub fn into_bytes(self) -> (bytes: Option<Vec<u8>>)
        ensures
            self.materialized() == (bytes is Some),
            forall|seen: Seq<u8>| #[trigger] self.holds(seen) ==> (bytes matches Some(bytes) ==> bytes@
                == seen),
    {
        self.bytes
    }
}

fn ends_with_newline_byte(piece: &[u8], ends: bool) -> (result: bool)
    ensures
        result == ends_after_bytes(ends, piece@),
{
    if piece.len() == 0 {
        ends
    } else {
        piece[piece.len() - 1] == 10
    }
}

fn ends_with_newline_char(piece: &str, ends: bool) -> (result: bool)
    ensures
        result == ends_after(ends, piece@),
{
    let result = ends_with_newline_byte(piece.as_bytes(), ends);
    proof {
        last_byte_of(piece@);
    }
    result
}

/// Whether a pass over a document may end like this. With `materialize` it keeps the new content;
/// without it, its length is that of the new content unless a number cannot hold it.
pub open spec fn pass_ends(
    document: TextDocument,
    matches: Seq<MatchSpec>,
    limit_mib: u64,
    materialize: bool,
    result: Result<(ReplacementOutput, usize), String>,
) -> bool {
    match result {
        Ok((output, count)) => {
            &&& replacement_outcome(document, matches, limit_mib) matches Ok((bytes, counted))
            &&& count == counted
            &&& output.materialized() == materialize
            &&& materialize || unclosed(document, matches, limit_mib).len() <= usize::MAX
                ==> output.holds(bytes)
        },
        Err(message) => replacement_outcome(document, matches, limit_mib) == Err::<
            (Seq<u8>, nat),
            Seq<char>,
        >(message@),
    }
}

/// A pass that keeps the new content and one that does not succeed together, with the same count
/// and the same length, which is that of the content; and they fail together, with the same words.
pub proof fn both_passes_agree(
    document: TextDocument,
    matches: Seq<MatchSpec>,
    limit_mib: u64,
    kept: Result<(ReplacementOutput, usize), String>,
    counted: Result<(ReplacementOutput, usize), String>,
)
    requires
        pass_ends(document, matches, limit_mib, true, kept),
        pass_ends(document, matches, limit_mib, false, counted),
    ensures
        kept is Ok <==> counted is Ok,
        kept is Ok ==> kept->Ok_0.1 == counted->Ok_0.1,
        kept is Ok && unclosed(document, matches, limit_mib).len() <= usize::MAX ==> {
            let bytes = replacement_outcome(document, matches, limit_mib)->Ok_0.0;
            &&& kept->Ok_0.0.length() == counted->Ok_0.0.length()
            &&& bytes.len() <= usize::MAX ==> kept->Ok_0.0.length() == bytes.len()
        },
        kept is Err ==> kept->Err_0@ == counted->Err_0@,
{
}

/// Applies matches to a document. With `materialize` the new content is kept, without it only
/// the outcome is found.
pub fn process_matches(
    document: &TextDocument,
    matches: &Vec<RegexMatch>,
    limit_mib: u64,
    materialize: bool,
) -> (result: Result<(ReplacementOutput, usize), String>)
    requires
        document.wf(),
        pattern::in_order(
            pattern::match_views(matches@),
            encode_utf8(document.logical()).len() as int,
        ),
    ensures
        pass_ends(
            *document,
            pattern::match_views(matches@),
            limit_mib,
            materialize,
            result,
        ),
{
    let ghost shown = pattern::match_views(matches@);
    let ghost mut done = no_progress();
    let raw = document.original_bytes();
    let logical = document.logical_text().as_bytes();
    let newline = document.encode_for_target("\n");
    let window: usize = match &newline {
        Ok(newline) => newline.len(),
        Err(_) => 0,
    };
    let mut output = ReplacementOutput::new(materialize, window);
    let mut previous_raw: usize = 0;
    let mut previous_logical: usize = 0;
    let mut ends_newline = false;
    let mut count: usize = 0;
    let mut index: usize = 0;
    assert(shown.take(0) =~= Seq::<MatchSpec>::empty());
    while index < matches.len()
        invariant
            index <= matches.len(),
            document.wf(),
            shown == pattern::match_views(matches@),
            pattern::in_order(shown, logical@.len() as int),
            logical@ == encode_utf8(document.logical()),
            raw@ == document.raw(),
            all_applied(*document, shown.take(index as int), limit_mib) == Ok::<
                Progress,
                Seq<char>,
            >(done),
            output.tracks(done.bytes),
            output.materialized() == materialize,
            output.reach() == window,
            previous_raw == done.raw,
            previous_raw <= raw@.len(),
            previous_logical == done.logical,
            previous_logical <= logical@.len(),
            previous_logical == 0 && previous_raw == 0 || document.raw_at(previous_logical as int)
                == Some(previous_raw as int),
            index < matches.len() ==> previous_logical <= shown[index as int].start,
            ends_newline == done.ends_newline,
            count == done.count,
            count <= index,
        decreases matches.len() - index,
    {
        let found = &matches[index];
        proof {
            assert(shown[index as int] == found@);
            assert(shown.take(index + 1).drop_last() =~= shown.take(index as int));
            assert(shown.take(index + 1).last() == found@);
            if index + 1 < matches@.len() {
                assert(shown[index as int].end <= shown[index + 1].start);
            }
        }
        if found.start == found.end && found.expanded.as_str().as_bytes().len() == 0 {
            proof {
                last_byte_of(found.expanded@);
            }
            index += 1;
            continue;
        }
        proof {
            last_byte_of(found.expanded@);
            assert(is_kept(found@));
            if index + 1 < matches@.len() {
                assert(shown[index as int].end <= shown[index + 1].start);
            }
        }
        let outcome = apply_match(
            document,
            found,
            &mut output,
            previous_raw,
            previous_logical,
            ends_newline,
            limit_mib,
            Ghost(done),
        );
        match outcome {
            Err(message) => {
                proof {
                    failure_stays(*document, shown, index + 1, limit_mib);
                }
                return Err(message);
            },
            Ok((raw_end, ends)) => {
                proof {
                    done = applied(*document, done, found@, limit_mib)->Ok_0;
                }
                previous_raw = raw_end;
                previous_logical = found.end;
                ends_newline = ends;
                count += 1;
            },
        }
        index += 1;
    }
    assert(shown.take(shown.len() as int) =~= shown);
    let rest = slice_subrange(raw, previous_raw, raw.len());
    if let Err(message) = output.extend(rest, document, limit_mib, Ghost(done.bytes)) {
        return Err(message);
    }
    let ghost whole = done.bytes + rest@;
    let tail = slice_subrange(logical, previous_logical, logical.len());
    let ends = ends_with_newline_byte(tail, ends_newline);
    let newline = match newline {
        Ok(newline) => newline,
        Err(message) => {
            return Err(message);
        },
    };
    if document.has_trailing_newline() && !ends {
        if let Err(message) = output.extend(
            newline.as_slice(),
            document,
            limit_mib,
            Ghost(whole),
        ) {
            return Err(message);
        }
    } else if !document.has_trailing_newline() && ends {
        output.remove_suffix(newline.as_slice(), Ghost(whole));
    }
    Ok((output, count))
}

proof fn failure_stays(document: TextDocument, matches: Seq<MatchSpec>, count: int, limit_mib: u64)
    requires
        0 <= count <= matches.len(),
        all_applied(document, matches.take(count), limit_mib) is Err,
    ensures
        all_applied(document, matches, limit_mib) == all_applied(
            document,
            matches.take(count),
            limit_mib,
        ),
    decreases matches.len(),
{
    if count < matches.len() {
        assert(matches.drop_last().take(count) =~= matches.take(count));
        failure_stays(document, matches.drop_last(), count, limit_mib);
    } else {
        assert(matches.take(count) =~= matches);
    }
}

fn apply_match(
    document: &TextDocument,
    found: &RegexMatch,
    output: &mut ReplacementOutput,
    previous_raw: usize,
    previous_logical: usize,
    ends_newline: bool,
    limit_mib: u64,
    done: Ghost<Progress>,
) -> (result: Result<(usize, bool), String>)
    requires
        document.wf(),
        is_kept(found@),
        old(output).tracks(done@.bytes),
        previous_raw == done@.raw,
        previous_raw <= document.raw().len(),
        previous_logical == done@.logical,
        previous_logical <= found.start <= found.end <= encode_utf8(document.logical()).len(),
        previous_logical == 0 && previous_raw == 0 || document.raw_at(previous_logical as int)
            == Some(previous_raw as int),
        ends_newline == done@.ends_newline,
    ensures
        final(output).materialized() == old(output).materialized(),
        final(output).reach() == old(output).reach(),
        match result {
            Ok((raw_end, ends)) => {
                &&& applied(*document, done@, found@, limit_mib) matches Ok(after)
                &&& final(output).tracks(after.bytes)
                &&& raw_end == after.raw
                &&& raw_end <= document.raw().len()
                &&& document.raw_at(found.end as int) == Some(raw_end as int)
                &&& after.logical == found.end
                &&& ends == after.ends_newline
                &&& after.count == done@.count + 1
            },
            Err(message) => applied(*document, done@, found@, limit_mib) == Err::<
                Progress,
                Seq<char>,
            >(message@),
        },
{
    let raw = document.original_bytes();
    let logical = document.logical_text().as_bytes();
    let raw_start = match document.raw_offset(found.start) {
        Ok(offset) => offset,
        Err(message) => {
            return Err(message);
        },
    };
    let raw_end = match document.raw_offset(found.end) {
        Ok(offset) => offset,
        Err(message) => {
            return Err(message);
        },
    };
    proof {
        let map = document.map();
        assert(map[found.start as int] is Some && map[found.end as int] is Some);
        assert(map[found.start as int]->Some_0 <= map[found.end as int]->Some_0);
        if !(previous_logical == 0 && previous_raw == 0) {
            assert(map[previous_logical as int] is Some);
            assert(map[previous_logical as int]->Some_0 <= map[found.start as int]->Some_0);
        }
    }
    let unchanged = slice_subrange(raw, previous_raw, raw_start);
    if let Err(message) = output.extend(unchanged, document, limit_mib, Ghost(done@.bytes)) {
        return Err(message);
    }
    let skipped = slice_subrange(logical, previous_logical, found.start);
    let ends = ends_with_newline_byte(skipped, ends_newline);
    let encoded = match document.encode_for_target(found.expanded.as_str()) {
        Ok(encoded) => encoded,
        Err(message) => {
            return Err(message);
        },
    };
    if let Err(message) = output.extend(
        encoded.as_slice(),
        document,
        limit_mib,
        Ghost(done@.bytes + unchanged@),
    ) {
        return Err(message);
    }
    let ends = ends_with_newline_char(found.expanded.as_str(), ends);
    Ok((raw_end, ends))
}

/// The matches of a compiled pattern in a document, each with the expanded template.
pub open spec fn document_matches(
    document: TextDocument,
    regex: CompiledRegex,
    template: Seq<char>,
) -> Seq<MatchSpec> {
    pattern::regex_matches(
        regex.source().0,
        regex.source().1,
        regex.source().2,
        document.logical(),
        template,
    )
}

/// Finds out whether a replacement can be written, without making the new content.
pub fn validate_replacement(
    document: &TextDocument,
    regex: &CompiledRegex,
    template: &str,
    limit_mib: u64,
) -> (result: Result<(), String>)
    requires
        document.wf(),
    ensures
        match result {
            Ok(()) => replacement_outcome(
                *document,
                document_matches(*document, *regex, template@),
                limit_mib,
            ) is Ok,
            Err(message) => replacement_outcome(
                *document,
                document_matches(*document, *regex, template@),
                limit_mib,
            ) == Err::<(Seq<u8>, nat), Seq<char>>(message@),
        },
{
    let matches = regex.matches(document.logical_text(), template);
    match process_matches(document, &matches, limit_mib, false) {
        Ok(_) => Ok(()),
        Err(message) => Err(message),
    }
}

/// The new content of a document.
#[derive(Debug)]
pub struct BuiltReplacement {
    pub bytes: Vec<u8>,
    pub matches: usize,
}

/// Makes the new content.
pub fn build_replacement(
    document: &TextDocument,
    regex: &CompiledRegex,
    template: &str,
    limit_mib: u64,
) -> (result: Result<BuiltReplacement, String>)
    requires
        document.wf(),
    ensures
        match result {
            Ok(built) => replacement_outcome(
                *document,
                document_matches(*document, *regex, template@),
                limit_mib,
            ) == Ok::<(Seq<u8>, nat), Seq<char>>((built.bytes@, built.matches as nat)),
            Err(message) => replacement_outcome(
                *document,
                document_matches(*document, *regex, template@),
                limit_mib,
            ) == Err::<(Seq<u8>, nat), Seq<char>>(message@),
        },
{
    let matches = regex.matches(document.logical_text(), template);
    match process_matches(document, &matches, limit_mib, true) {
        Ok((output, count)) => {
            let bytes = match output.into_bytes() {
                Some(bytes) => bytes,
                None => Vec::new(),
            };
            Ok(BuiltReplacement { bytes, matches: count })
        },
        Err(message) => Err(message),
    }
}

/// A text as a preview shows it: line breaks spelled out, and cut off when it is long.
pub open spec fn preview_spec(text: Seq<char>) -> Seq<char> {
    let escaped = text::escaped_breaks(text);
    if escaped.len() > PREVIEW_CHARS {
        escaped.take(PREVIEW_CHARS as int) + "…"@
    } else {
        escaped
    }
}

/// A text as a preview shows it.
pub fn preview_text(text: &str) -> (preview: String)
    ensures
        preview@ == preview_spec(text@),
{
    let chars = chars_of(text);
    let escaped = escape_breaks(chars.as_slice());
    if escaped.len() > PREVIEW_CHARS {
        let mut preview = string_of(slice_subrange(escaped.as_slice(), 0, PREVIEW_CHARS));
        preview.append("…");
        assert(escaped@.subrange(0, PREVIEW_CHARS as int) =~= escaped@.take(PREVIEW_CHARS as int));
        preview
    } else {
        string_of(escaped.as_slice())
    }
}

/// The preview line of a match: line number, match and replacement.
pub open spec fn preview_line(document: TextDocument, found: MatchSpec) -> Seq<char> {
    text::decimal(bytes::line_feeds(encode_utf8(document.logical()).take(found.start)) + 1)
        + ": "@ + preview_spec(found.matched) + " -> "@ + preview_spec(found.expanded)
}

/// The preview lines of the first matches.
pub open spec fn preview_lines(
    document: TextDocument,
    found: Seq<MatchSpec>,
    limit: nat,
) -> Seq<Seq<char>>
    decreases found.len(),
{
    if found.len() == 0 {
        Seq::empty()
    } else if found.len() > limit {
        preview_lines(document, found.drop_last(), limit)
    } else {
        preview_lines(document, found.drop_last(), limit).push(
            preview_line(document, found.last()),
        )
    }
}

/// What a dry run shows of a file.
#[derive(Debug)]
pub struct FileAnalysis {
    pub matches: usize,
    pub previews: Vec<String>,
}

/// Counts the matches that change something and previews the first of them.
pub fn analyze_matches(document: &TextDocument, matches: &Vec<RegexMatch>, preview_limit: usize) -> (
analysis: FileAnalysis)
    requires
        document.wf(),
        pattern::in_order(
            pattern::match_views(matches@),
            encode_utf8(document.logical()).len() as int,
        ),
    ensures
        analysis.matches == kept(pattern::match_views(matches@)).len(),
        text::views(analysis.previews@) == preview_lines(
            *document,
            kept(pattern::match_views(matches@)),
            preview_limit as nat,
        ),
        analysis.previews@.len() == if analysis.matches < preview_limit {
            analysis.matches
        } else {
            preview_limit
        },
{
    let ghost shown = pattern::match_views(matches@);
    let logical = document.logical_text().as_bytes();
    let mut count: usize = 0;
    let mut previews: Vec<String> = Vec::new();
    let mut index: usize = 0;
    assert(shown.take(0) =~= Seq::<MatchSpec>::empty());
    assert(text::views(previews@) =~= Seq::<Seq<char>>::empty());
    while index < matches.len()
        invariant
            index <= matches.len(),
            document.wf(),
            shown == pattern::match_views(matches@),
            pattern::in_order(shown, logical@.len() as int),
            logical@ == encode_utf8(document.logical()),
            count == kept(shown.take(index as int)).len(),
            count <= index,
            previews@.len() == if count < preview_limit {
                count
            } else {
                preview_limit
            },
            text::views(previews@) == preview_lines(
                *document,
                kept(shown.take(index as int)),
                preview_limit as nat,
            ),
        decreases matches.len() - index,
    {
        let found = &matches[index];
        let ghost before = kept(shown.take(index as int));
        proof {
            assert(shown[index as int] == found@);
            assert(shown.take(index + 1).drop_last() =~= shown.take(index as int));
            assert(shown.take(index + 1).last() == found@);
            last_byte_of(found.expanded@);
        }
        if found.start == found.end && found.expanded.as_str().as_bytes().len() == 0 {
            index += 1;
            continue;
        }
        count += 1;
        proof {
            assert(kept(shown.take(index + 1)) == before.push(found@));
            assert(before.push(found@).drop_last() =~= before);
        }
        if previews.len() < preview_limit {
            let feeds = count_line_feeds(logical, found.start);
            let slots = document.offset_slots();
            assert(feeds < slots);
            let mut line = decimal_text(feeds as u64 + 1);
            line.append(": ");
            line.append(preview_text(found.matched.as_str()).as_str());
            line.append(" -> ");
            line.append(preview_text(found.expanded.as_str()).as_str());
            let ghost old_previews = previews@;
            let ghost added = line@;
            previews.push(line);
            assert(text::views(previews@) =~= text::views(old_previews).push(added));
        }
        index += 1;
    }
    assert(shown.take(shown.len() as int) =~= shown);
    FileAnalysis { matches: count, previews }
}

/// Counts and previews what a replacement would change in a document.
pub fn analyze_file(
    document: &TextDocument,
    regex: &CompiledRegex,
    template: &str,
    preview_limit: usize,
) -> (analysis: FileAnalysis)
    requires
        document.wf(),
    ensures
        analysis.matches == kept(document_matches(*document, *regex, template@)).len(),
        text::views(analysis.previews@) == preview_lines(
            *document,
            kept(document_matches(*document, *regex, template@)),
            preview_limit as nat,
        ),
        analysis.previews@.len() == if analysis.matches < preview_limit {
            analysis.matches
        } else {
            preview_limit
        },
{
    let matches = regex.matches(document.logical_text(), template);
    analyze_matches(document, &matches, preview_limit)
}

} // verus!
