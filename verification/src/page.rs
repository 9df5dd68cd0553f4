//! Pages of lines under a head note, cut to a token budget.

use crate::head_note::{HeadNote, NoteSpec};
use crate::paging;
use crate::paging::replay_compat_binary_probes;
use crate::text;
use vstd::prelude::*;
use vstd::string::*;

verus! {

/// What a note tells beside its metric: facts, and lines on what was left out. How many of those
/// lines are shown is told too.
#[derive(Debug)]
pub struct NoteUnits {
    pub facts: Vec<String>,
    /// The lines on what was left out.
    pub details: Vec<String>,
    /// The fact on what was left out, by the number of lines that are shown.
    pub tally: Vec<Option<String>>,
}

/// The mathematical value of a [`NoteUnits`].
pub struct UnitsSpec {
    pub facts: Seq<Seq<char>>,
    pub details: Seq<Seq<char>>,
    pub tally: Seq<Option<Seq<char>>>,
}

/// Optional texts as mathematical values.
pub open spec fn option_views(texts: Seq<Option<String>>) -> Seq<Option<Seq<char>>> {
    texts.map(
        |i: int, text: Option<String>|
            match text {
                Some(text) => Some(text@),
                None => None,
            },
    )
}

impl View for NoteUnits {
    type V = UnitsSpec;

    open spec fn view(&self) -> UnitsSpec {
        UnitsSpec {
            facts: text::views(self.facts@),
            details: text::views(self.details@),
            tally: option_views(self.tally@),
        }
    }
}

impl UnitsSpec {
    /// Whether there is a fact for every number of shown lines.
    pub open spec fn wf(self) -> bool {
        self.tally.len() == self.details.len() + 1
    }

    /// The note with the facts.
    pub open spec fn told(self, note: NoteSpec, shown: int) -> NoteSpec {
        let told = note.with_facts(self.facts);
        match self.tally[shown] {
            Some(fact) => told.with_fact(fact),
            None => told,
        }
    }

    /// The page: the note, the body, and the first lines on what was left out.
    pub open spec fn page(self, note: NoteSpec, body: Seq<Seq<char>>, shown: int) -> Seq<char> {
        text::joined(seq![self.told(note, shown).line()] + body + self.details.take(shown), "\n"@)
    }
}

impl NoteUnits {
    /// Nothing to tell.
    pub fn none() -> (units: Self)
        ensures
            units@.wf(),
            units@.facts == Seq::<Seq<char>>::empty(),
            units@.details == Seq::<Seq<char>>::empty(),
            units@.tally == seq![None::<Seq<char>>],
    {
        let mut tally: Vec<Option<String>> = Vec::new();
        tally.push(None);
        let units = NoteUnits { facts: Vec::new(), details: Vec::new(), tally };
        assert(units@.facts =~= Seq::<Seq<char>>::empty());
        assert(units@.details =~= Seq::<Seq<char>>::empty());
        assert(units@.tally =~= seq![None::<Seq<char>>]);
        units
    }

    /// The note with the facts.
    pub fn tell(&self, note: &HeadNote, shown: usize) -> (told: HeadNote)
        requires
            self@.wf(),
            shown <= self@.details.len(),
        ensures
            told@ == self@.told(note@, shown as int),
    {
        let mut told = note.duplicate();
        let mut index: usize = 0;
        proof {
            assert(told@.facts =~= note@.facts + self@.facts.take(0));
        }
        while index < self.facts.len()
            invariant
                index <= self.facts.len(),
                told@ == note@.with_facts(self@.facts.take(index as int)),
            decreases self.facts.len() - index,
        {
            told = told.fact(self.facts[index].as_str().to_owned());
            proof {
                assert(told@.facts =~= note@.facts + self@.facts.take(index + 1));
            }
            index += 1;
        }
        proof {
            assert(self@.facts.take(self.facts@.len() as int) =~= self@.facts);
            assert(self@.tally[shown as int] == option_views(self.tally@)[shown as int]);
        }
        match &self.tally[shown] {
            Some(fact) => told.fact(fact.as_str().to_owned()),
            None => told,
        }
    }

    /// Writes the page: the note, the first lines of the body, and the first lines on what was
    /// left out.
    pub fn write(&self, note: &HeadNote, body: &Vec<String>, lines: usize, shown: usize) -> (page:
        String)
        requires
            self@.wf(),
            shown <= self@.details.len(),
            lines <= body@.len(),
        ensures
            page@ == self@.page(note@, text::views(body@).take(lines as int), shown as int),
    {
        let told = self.tell(note, shown);
        let mut page = told.render();
        let ghost head = told@.line();
        let ghost before = text::views(body@).take(lines as int);
        let ghost behind = self@.details.take(shown as int);
        let mut index: usize = 0;
        proof {
            assert(seq![head] + before.take(0) =~= seq![head]);
            joined_one(head);
        }
        while index < lines
            invariant
                index <= lines <= body@.len(),
                before == text::views(body@).take(lines as int),
                page@ == text::joined(seq![head] + before.take(index as int), "\n"@),
            decreases lines - index,
        {
            page.append("\n");
            page.append(body[index].as_str());
            proof {
                joined_push(seq![head] + before.take(index as int), before[index as int]);
                assert((seq![head] + before.take(index as int)).push(before[index as int])
                    =~= seq![head] + before.take(index + 1));
            }
            index += 1;
        }
        assert(before.take(lines as int) =~= before);
        let mut detail: usize = 0;
        assert(seq![head] + before + behind.take(0) =~= seq![head] + before);
        while detail < shown
            invariant
                detail <= shown <= self.details@.len(),
                behind == self@.details.take(shown as int),
                page@ == text::joined(seq![head] + before + behind.take(detail as int), "\n"@),
            decreases shown - detail,
        {
            page.append("\n");
            page.append(self.details[detail].as_str());
            proof {
                joined_push(seq![head] + before + behind.take(detail as int), behind[detail as int]);
                assert((seq![head] + before + behind.take(detail as int)).push(
                    behind[detail as int],
                ) =~= seq![head] + before + behind.take(detail + 1));
            }
            detail += 1;
        }
        assert(behind.take(shown as int) =~= behind);
        page
    }
}

proof fn joined_one(line: Seq<char>)
    ensures
        text::joined(seq![line], "\n"@) == line,
{
    reveal_with_fuel(text::joined, 2);
    assert(seq![line].drop_last() =~= Seq::<Seq<char>>::empty());
}

proof fn joined_push(lines: Seq<Seq<char>>, line: Seq<char>)
    requires
        lines.len() > 0,
    ensures
        text::joined(lines.push(line), "\n"@) == text::joined(lines, "\n"@) + "\n"@ + line,
{
    assert(lines.push(line).drop_last() =~= lines);
}

/// Whether `costs` is what `tokens` returns for every number.
pub open spec fn counts<P: Fn(usize) -> usize>(tokens: P, costs: spec_fn(int) -> nat) -> bool {
    forall|n: usize, count: usize|
        #[trigger] call_ensures(tokens, (n,), count) ==> count == costs(n as int)
}

/// Whether a number fits a budget, as a probe answers it.
pub open spec fn fit_answer(costs: spec_fn(int) -> nat, budget: nat) -> spec_fn(int) -> Result<
    Option<usize>,
    (),
> {
    |n: int|
        if costs(n) <= budget {
            Ok::<Option<usize>, ()>(Some(n as usize))
        } else {
            Ok::<Option<usize>, ()>(None)
        }
}

/// The number that the search among `low` to `high` settles on, or else `best`.
pub open spec fn settled(
    low: int,
    high: int,
    best: Option<usize>,
    costs: spec_fn(int) -> nat,
    budget: nat,
) -> Option<usize> {
    match paging::probed(low, high, best, fit_answer(costs, budget)) {
        Ok(found) => found,
        Err(_) => None,
    }
}

/// Searches among `low` to `high` for a number whose tokens fit the budget.
pub fn settle<P: Fn(usize) -> usize>(
    low: usize,
    high: usize,
    best: Option<usize>,
    budget: usize,
    tokens: &P,
) -> (found: Option<usize>)
    requires
        forall|n: usize| low <= n <= high ==> #[trigger] call_requires(*tokens, (n,)),
    ensures
        forall|costs: spec_fn(int) -> nat| #[trigger]
            counts(*tokens, costs) ==> found == settled(
                low as int,
                high as int,
                best,
                costs,
                budget as nat,
            ),
        found is Some ==> found == best || low <= found->Some_0 <= high,
{
    let probe = |n: usize| -> (answer: Result<Option<usize>, ()>)
        requires
            call_requires(tokens, (n,)),
        ensures
            exists|count: usize| #[trigger]
                call_ensures(tokens, (n,), count) && answer == if count <= budget {
                    Ok::<Option<usize>, ()>(Some(n))
                } else {
                    Ok::<Option<usize>, ()>(None)
                },
        {
            let count = tokens(n);
            if count <= budget {
                Ok(Some(n))
            } else {
                Ok(None)
            }
        };
    let result = replay_compat_binary_probes(low, high, best, &probe);
    proof {
        assert forall|costs: spec_fn(int) -> nat| #[trigger] counts(*tokens, costs) implies result
            == paging::probed(
            low as int,
            high as int,
            best,
            fit_answer(costs, budget as nat),
        ) by {
            assert(paging::describes(probe, fit_answer(costs, budget as nat)));
        }
    }
    match result {
        Ok(found) => found,
        Err(_) => None,
    }
}

/// How many lines on what was left out are shown below a body: all where they fit, else what the
/// search settles on; `None` when not even the body alone fits.
pub open spec fn details_shown(
    maximum: nat,
    costs: spec_fn(int) -> nat,
    budget: nat,
) -> Option<usize> {
    if costs(maximum as int) <= budget {
        Some(maximum as usize)
    } else if costs(0) > budget {
        None
    } else if maximum <= 1 {
        Some(0usize)
    } else {
        settled(1, maximum - 1, Some(0usize), costs, budget)
    }
}

/// What a page costs, by the number of lines on what was left out.
pub open spec fn page_costs(
    units: UnitsSpec,
    note: NoteSpec,
    body: Seq<Seq<char>>,
    cost: spec_fn(Seq<char>) -> nat,
) -> spec_fn(int) -> nat {
    |shown: int| cost(units.page(note, body, shown))
}

/// The finished page, or `None` when it does not fit.
pub open spec fn finished(
    units: UnitsSpec,
    note: NoteSpec,
    body: Seq<Seq<char>>,
    budget: nat,
    cost: spec_fn(Seq<char>) -> nat,
) -> Option<Seq<char>> {
    match details_shown(units.details.len(), page_costs(units, note, body, cost), budget) {
        Some(shown) => Some(units.page(note, body, shown as int)),
        None => None,
    }
}

/// Finishes a page: as many lines on what was left out as the budget holds beside the body.
pub fn finish_page<F: Fn(&str) -> usize>(
    units: &NoteUnits,
    note: &HeadNote,
    body: &Vec<String>,
    lines: usize,
    budget: usize,
    estimate: &F,
) -> (page: Option<String>)
    requires
        units@.wf(),
        lines <= body@.len(),
        forall|text: &str| #[trigger] call_requires(*estimate, (text,)),
    ensures
        forall|cost: spec_fn(Seq<char>) -> nat| #[trigger]
            paging::estimates(*estimate, cost) ==> page_view(page) == finished(
                units@,
                note@,
                text::views(body@).take(lines as int),
                budget as nat,
                cost,
            ),
{
    let ghost shown_lines = text::views(body@).take(lines as int);
    let maximum = units.details.len();
    let tokens = |shown: usize| -> (count: usize)
        requires
            shown <= maximum,
        ensures
            exists|page_text: &str| #[trigger]
                call_ensures(estimate, (page_text,), count) && page_text@ == units@.page(
                    note@,
                    text::views(body@).take(lines as int),
                    shown as int,
                ),
        {
            let page = units.write(note, body, lines, shown);
            let page_text = page.as_str();
            let count = estimate(page_text);
            assert(call_ensures(estimate, (page_text,), count));
            count
        };
    proof {
        assert(units@.details.len() == maximum);
    }
    let full = tokens(maximum);
    proof {
        assert forall|cost: spec_fn(Seq<char>) -> nat| #[trigger]
            paging::estimates(*estimate, cost) implies full == cost(
            units@.page(note@, shown_lines, maximum as int),
        ) by {}
    }
    if full <= budget {
        return Some(units.write(note, body, lines, maximum));
    }
    let bare = tokens(0);
    proof {
        assert forall|cost: spec_fn(Seq<char>) -> nat| #[trigger]
            paging::estimates(*estimate, cost) implies bare == cost(
            units@.page(note@, shown_lines, 0),
        ) by {}
    }
    if bare > budget {
        return None;
    }
    let shown = if maximum <= 1 {
        Some(0usize)
    } else {
        let found = settle(1, maximum - 1, Some(0), budget, &tokens);
        proof {
            assert forall|cost: spec_fn(Seq<char>) -> nat| #[trigger]
                paging::estimates(*estimate, cost) implies found == settled(
                1,
                maximum - 1,
                Some(0usize),
                page_costs(units@, note@, shown_lines, cost),
                budget as nat,
            ) by {
                assert(counts(tokens, page_costs(units@, note@, shown_lines, cost)));
            }
        }
        found
    };
    match shown {
        Some(shown) => Some(units.write(note, body, lines, shown)),
        None => None,
    }
}

/// An optional text as a mathematical value.
pub open spec fn page_view(page: Option<String>) -> Option<Seq<char>> {
    match page {
        Some(page) => Some(page@),
        None => None,
    }
}

/// A finished page fits its budget.
pub proof fn finished_page_fits(
    units: UnitsSpec,
    note: NoteSpec,
    body: Seq<Seq<char>>,
    budget: nat,
    cost: spec_fn(Seq<char>) -> nat,
)
    requires
        units.details.len() <= usize::MAX,
    ensures
        finished(units, note, body, budget, cost) matches Some(page) ==> cost(page) <= budget,
{
    let costs = page_costs(units, note, body, cost);
    let maximum = units.details.len();
    if costs(maximum as int) > budget && costs(0) <= budget && maximum > 1 {
        settled_fits(1, maximum - 1, Some(0usize), costs, budget);
    }
}

/// What the search settles on fits.
pub proof fn settled_fits(
    low: int,
    high: int,
    best: Option<usize>,
    costs: spec_fn(int) -> nat,
    budget: nat,
)
    requires
        0 <= low,
        high <= usize::MAX,
        best matches Some(kept) ==> costs(kept as int) <= budget,
    ensures
        settled(low, high, best, costs, budget) matches Some(found) ==> costs(found as int)
            <= budget,
    decreases high - low + 1,
{
    if low <= high {
        let middle = low + (high - low) / 2;
        if costs(middle) <= budget {
            settled_fits(middle + 1, high, Some(middle as usize), costs, budget);
        } else {
            settled_fits(low, middle - 1, best, costs, budget);
        }
    }
}

} // verus!
