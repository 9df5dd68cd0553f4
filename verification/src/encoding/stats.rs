//! Line and escape statistics of decoded text, gathered piece by piece.

use vstd::prelude::*;

verus! {

/// A count as a machine word holds it.
pub open spec fn saturated(count: nat) -> nat {
    if count > usize::MAX {
        usize::MAX as nat
    } else {
        count
    }
}

/// The number of line feeds.
pub open spec fn newline_count(text: Seq<char>) -> nat
    decreases text.len(),
{
    if text.len() == 0 {
        0
    } else {
        newline_count(text.drop_last()) + if text.last() == '\n' {
            1nat
        } else {
            0nat
        }
    }
}

/// Whether an escape character is followed by `(` or `$`, as ISO-2022 designators are.
pub open spec fn has_iso_2022_escape(text: Seq<char>) -> bool {
    exists|i: int|
        0 < i < text.len() && text[i - 1] == '\u{1b}' && (#[trigger] text[i] == '(' || text[i]
            == '$')
}

/// Whether a character beyond ASCII occurs.
pub open spec fn has_non_ascii(text: Seq<char>) -> bool {
    exists|i: int| 0 <= i < text.len() && #[trigger] text[i] > '\u{7f}'
}

/// The number of lines, counting the text after the last line feed as one.
pub open spec fn line_total(text: Seq<char>) -> nat {
    if text.len() == 0 {
        0
    } else {
        saturated(newline_count(text) + 1)
    }
}

/// Whether the text ends with a line feed.
pub open spec fn ends_with_newline(text: Seq<char>) -> bool {
    text.len() > 0 && text.last() == '\n'
}

/// Statistics of the text observed so far.
#[derive(Clone, Copy, Debug)]
pub struct ValidationStats {
    pub decoded_any: bool,
    pub newline_count: usize,
    pub has_trailing_newline: bool,
    pub has_non_ascii: bool,
    pub has_iso_2022_escape: bool,
    pub previous_was_escape: bool,
}

impl ValidationStats {
    /// Whether these are the statistics of `text`.
    pub open spec fn describes(&self, text: Seq<char>) -> bool {
        &&& self.decoded_any == (text.len() > 0)
        &&& self.newline_count == saturated(newline_count(text))
        &&& self.has_trailing_newline == ends_with_newline(text)
        &&& self.has_non_ascii == has_non_ascii(text)
        &&& self.has_iso_2022_escape == has_iso_2022_escape(text)
        &&& self.previous_was_escape == (text.len() > 0 && text.last() == '\u{1b}')
    }

    /// The statistics of no text.
    pub fn new() -> (stats: Self)
        ensures
            stats.describes(Seq::empty()),
    {
        ValidationStats {
            decoded_any: false,
            newline_count: 0,
            has_trailing_newline: false,
            has_non_ascii: false,
            has_iso_2022_escape: false,
            previous_was_escape: false,
        }
    }

    fn observe_char(&mut self, character: char)
        ensures
            forall|seen: Seq<char>|
                old(self).describes(seen) ==> #[trigger] final(self).describes(
                    seen.push(character),
                ),
    {
        let ghost before = *self;
        let escape_here = self.previous_was_escape && (character == '(' || character == '$');
        self.has_iso_2022_escape = self.has_iso_2022_escape || escape_here;
        self.previous_was_escape = character == '\u{1b}';
        self.decoded_any = true;
        self.has_non_ascii = self.has_non_ascii || character > '\u{7f}';
        self.has_trailing_newline = character == '\n';
        if character == '\n' {
            self.newline_count = self.newline_count.saturating_add(1);
        }
        proof {
            assert forall|seen: Seq<char>| before.describes(seen) implies #[trigger] self.describes(
                seen.push(character),
            ) by {
                let longer = seen.push(character);
                assert(longer.drop_last() =~= seen);
                assert(longer.last() == character);
                if has_iso_2022_escape(seen) {
                    let i = choose|i: int|
                        0 < i < seen.len() && seen[i - 1] == '\u{1b}' && (#[trigger] seen[i] == '('
                            || seen[i] == '$');
                    assert(longer[i] == seen[i] && longer[i - 1] == seen[i - 1]);
                }
                if escape_here {
                    assert(longer[seen.len() as int] == character);
                    assert(longer[seen.len() - 1] == seen.last());
                }
                if has_iso_2022_escape(longer) && !has_iso_2022_escape(seen) {
                    let i = choose|i: int|
                        0 < i < longer.len() && longer[i - 1] == '\u{1b}' && (#[trigger] longer[i]
                            == '(' || longer[i] == '$');
                    if i < seen.len() {
                        assert(seen[i] == longer[i] && seen[i - 1] == longer[i - 1]);
                    }
                }
                if has_non_ascii(seen) {
                    let i = choose|i: int| 0 <= i < seen.len() && #[trigger] seen[i] > '\u{7f}';
                    assert(longer[i] == seen[i]);
                }
                if character > '\u{7f}' {
                    assert(longer[seen.len() as int] == character);
                }
                if has_non_ascii(longer) && !(character > '\u{7f}') {
                    let i = choose|i: int| 0 <= i < longer.len() && #[trigger] longer[i] > '\u{7f}';
                    assert(seen[i] == longer[i]);
                }
            }
        }
    }

    /// Observes the next piece of text.
    pub fn observe(&mut self, text: &str)
        ensures
            forall|seen: Seq<char>|
                old(self).describes(seen) ==> #[trigger] final(self).describes(seen + text@),
    {
        let ghost before = *self;
        proof {
            assert forall|seen: Seq<char>| before.describes(seen) implies #[trigger] self.describes(
                seen + text@.take(0),
            ) by {
                assert(seen + text@.take(0) =~= seen);
            }
        }
        for character in iter: text.chars()
            invariant
                iter.seq() == text@,
                forall|seen: Seq<char>|
                    before.describes(seen) ==> #[trigger] self.describes(
                        seen + text@.take(iter.index()),
                    ),
        {
            let ghost here = *self;
            let ghost at = iter.index();
            self.observe_char(character);
            proof {
                assert forall|seen: Seq<char>|
                    before.describes(seen) implies #[trigger] self.describes(
                    seen + text@.take(at + 1),
                ) by {
                    assert(here.describes(seen + text@.take(at)));
                    assert((seen + text@.take(at)).push(character) =~= seen + text@.take(at + 1));
                }
            }
        }
        proof {
            assert(text@.take(text@.len() as int) =~= text@);
        }
    }

    /// The number of lines of the text observed.
    pub fn total_lines(&self) -> (total: usize)
        ensures
            forall|text: Seq<char>| #[trigger] self.describes(text) ==> total == line_total(text),
    {
        if self.decoded_any {
            self.newline_count.saturating_add(1)
        } else {
            0
        }
    }
}

} // verus!
