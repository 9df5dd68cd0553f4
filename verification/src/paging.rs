//! Searching for how much of a report fits a budget.

use vstd::prelude::*;

verus! {

/// Whether `cost` is what `estimate` returns for every text.
pub open spec fn estimates<F: Fn(&str) -> usize>(
    estimate: F,
    cost: spec_fn(Seq<char>) -> nat,
) -> bool {
    forall|text: &str, tokens: usize|
        #[trigger] call_ensures(estimate, (text,), tokens) ==> tokens == cost(text@)
}

/// Whether `answer` describes what `probe` returns.
pub open spec fn describes<T, E, F: Fn(usize) -> Result<Option<T>, E>>(
    probe: F,
    answer: spec_fn(int) -> Result<Option<T>, E>,
) -> bool {
    forall|n: usize, result: Result<Option<T>, E>|
        #[trigger] call_ensures(probe, (n,), result) ==> result == answer(n as int)
}

/// Whether a probe among `low` to `high` answered with this hit.
pub open spec fn heard<T, E, F: Fn(usize) -> Result<Option<T>, E>>(
    probe: F,
    low: int,
    high: int,
    hit: T,
) -> bool {
    exists|n: usize|
        low <= n <= high && #[trigger] call_ensures(probe, (n,), Ok::<Option<T>, E>(Some(hit)))
}

/// Whether a probe among `low` to `high` failed with this error.
pub open spec fn failed_with<T, E, F: Fn(usize) -> Result<Option<T>, E>>(
    probe: F,
    low: int,
    high: int,
    error: E,
) -> bool {
    exists|n: usize|
        low <= n <= high && #[trigger] call_ensures(probe, (n,), Err::<Option<T>, E>(error))
}

/// The outcome of the inclusive binary search from `low` to `high`: every hit is remembered and
/// the search goes on above it, every miss sends it below, an error ends it.
pub open spec fn probed<T, E>(
    low: int,
    high: int,
    best: Option<T>,
    answer: spec_fn(int) -> Result<Option<T>, E>,
) -> Result<Option<T>, E>
    decreases high - low + 1,
{
    if low > high || low < 0 {
        Ok(best)
    } else {
        let middle = low + (high - low) / 2;
        match answer(middle) {
            Err(error) => Err(error),
            Ok(Some(found)) => probed(middle + 1, high, Some(found), answer),
            Ok(None) => probed(low, middle - 1, best, answer),
        }
    }
}

/// Whether these probes, each with its answer, are those of the inclusive binary search from `low`
/// to `high`, in their order, and whether this is its outcome.
pub open spec fn replayed<T, E>(
    low: int,
    high: int,
    best: Option<T>,
    steps: Seq<(int, Result<Option<T>, E>)>,
    result: Result<Option<T>, E>,
) -> bool
    decreases high - low + 1,
{
    if low > high || low < 0 {
        steps.len() == 0 && result == Ok::<Option<T>, E>(best)
    } else {
        let middle = low + (high - low) / 2;
        &&& steps.len() > 0
        &&& steps[0].0 == middle
        &&& match steps[0].1 {
            Err(error) => steps.len() == 1 && result == Err::<Option<T>, E>(error),
            Ok(Some(found)) => replayed(
                middle + 1,
                high,
                Some(found),
                steps.drop_first(),
                result,
            ),
            Ok(None) => replayed(low, middle - 1, best, steps.drop_first(), result),
        }
    }
}

/// Whether the probe gave each of these answers.
pub open spec fn answered<T, E, F: Fn(usize) -> Result<Option<T>, E>>(
    probe: F,
    steps: Seq<(int, Result<Option<T>, E>)>,
) -> bool {
    forall|i: int|
        0 <= i < steps.len() ==> {
            &&& 0 <= (#[trigger] steps[i]).0 <= usize::MAX
            &&& call_ensures(probe, (steps[i].0 as usize,), steps[i].1)
        }
}

/// The search asks only about what lies between its ends, and about nothing twice.
pub proof fn nothing_is_asked_twice<T, E>(
    low: int,
    high: int,
    best: Option<T>,
    steps: Seq<(int, Result<Option<T>, E>)>,
    result: Result<Option<T>, E>,
)
    requires
        replayed(low, high, best, steps, result),
    ensures
        forall|i: int| 0 <= i < steps.len() ==> low <= (#[trigger] steps[i]).0 <= high,
        forall|i: int, j: int|
            0 <= i < j < steps.len() ==> (#[trigger] steps[i]).0 != (#[trigger] steps[j]).0,
    decreases high - low + 1,
{
    if 0 <= low <= high {
        let middle = low + (high - low) / 2;
        let rest = steps.drop_first();
        match steps[0].1 {
            Err(_) => {},
            Ok(Some(found)) => nothing_is_asked_twice(middle + 1, high, Some(found), rest, result),
            Ok(None) => nothing_is_asked_twice(low, middle - 1, best, rest, result),
        }
        if steps[0].1 is Ok {
            assert forall|i: int| 0 < i < steps.len() implies (#[trigger] steps[i]) == rest[
                i - 1
            ] by {}
        }
    }
}

proof fn outcome_was_answered<T, E, F: Fn(usize) -> Result<Option<T>, E>>(
    probe: F,
    low: int,
    high: int,
    best: Option<T>,
    steps: Seq<(int, Result<Option<T>, E>)>,
    result: Result<Option<T>, E>,
)
    requires
        answered(probe, steps),
        replayed(low, high, best, steps, result),
    ensures
        result matches Ok(Some(found)) ==> best == Some(found) || heard(probe, low, high, found),
        result matches Err(error) ==> failed_with(probe, low, high, error),
    decreases high - low + 1,
{
    if 0 <= low <= high {
        let middle = low + (high - low) / 2;
        let rest = steps.drop_first();
        assert(call_ensures(probe, (steps[0].0 as usize,), steps[0].1));
        assert(answered(probe, rest)) by {
            assert forall|i: int| 0 <= i < rest.len() implies {
                &&& 0 <= (#[trigger] rest[i]).0 <= usize::MAX
                &&& call_ensures(probe, (rest[i].0 as usize,), rest[i].1)
            } by {
                assert(rest[i] == steps[i + 1]);
            }
        }
        match steps[0].1 {
            Err(_) => {},
            Ok(Some(hit)) => {
                outcome_was_answered(probe, middle + 1, high, Some(hit), rest, result);
            },
            Ok(None) => {
                outcome_was_answered(probe, low, middle - 1, best, rest, result);
            },
        }
    }
}

proof fn one_more_probe<T, E>(
    low: int,
    high: int,
    best: Option<T>,
    answer: Result<Option<T>, E>,
    more: Seq<(int, Result<Option<T>, E>)>,
    end: Result<Option<T>, E>,
)
    requires
        0 <= low <= high,
    ensures
        ({
            let middle = low + (high - low) / 2;
            let steps = seq![(middle, answer)] + more;
            match answer {
                Err(error) => more.len() == 0 && end == Err::<Option<T>, E>(error) ==> replayed(
                    low,
                    high,
                    best,
                    steps,
                    end,
                ),
                Ok(Some(found)) => replayed(middle + 1, high, Some(found), more, end) ==> replayed(
                    low,
                    high,
                    best,
                    steps,
                    end,
                ),
                Ok(None) => replayed(low, middle - 1, best, more, end) ==> replayed(
                    low,
                    high,
                    best,
                    steps,
                    end,
                ),
            }
        }),
{
    let middle = low + (high - low) / 2;
    let steps = seq![(middle, answer)] + more;
    assert(steps.drop_first() =~= more);
    assert(steps[0] == (middle, answer));
}

/// Runs the inclusive binary search, in the same order of probes and without underflow.
pub fn replay_compat_binary_probes<T, E, F: Fn(usize) -> Result<Option<T>, E>>(
    low: usize,
    high: usize,
    best: Option<T>,
    probe: &F,
) -> (result: Result<Option<T>, E>)
    requires
        forall|n: usize| low <= n <= high ==> #[trigger] call_requires(*probe, (n,)),
    ensures
        forall|answer: spec_fn(int) -> Result<Option<T>, E>|
            #[trigger] describes(*probe, answer) ==> result == probed(
                low as int,
                high as int,
                best,
                answer,
            ),
        exists|steps: Seq<(int, Result<Option<T>, E>)>|
            #[trigger] answered(*probe, steps) && replayed(
                low as int,
                high as int,
                best,
                steps,
                result,
            ),
        result matches Ok(Some(found)) ==> best == Some(found) || heard(
            *probe,
            low as int,
            high as int,
            found,
        ),
        result matches Err(error) ==> failed_with(*probe, low as int, high as int, error),
{
    let mut from: usize = low;
    let mut to: usize = high;
    let mut found: Option<T> = best;
    let ghost mut trail: Seq<(int, Result<Option<T>, E>)> = Seq::empty();
    proof {
        let nothing = Seq::<(int, Result<Option<T>, E>)>::empty();
        assert(trail + nothing =~= trail);
        assert(from > to ==> replayed(from as int, to as int, found, nothing, Ok(found)));
        assert forall|more: Seq<(int, Result<Option<T>, E>)>, end: Result<Option<T>, E>| #[trigger]
            replayed(low as int, high as int, best, more, end) implies replayed(
            low as int,
            high as int,
            best,
            trail + more,
            end,
        ) by {
            assert(trail + more =~= more);
        }
    }
    while from <= to
        invariant_except_break
            low <= from,
            to <= high,
            answered(*probe, trail),
            from > to ==> replayed(
                low as int,
                high as int,
                best,
                trail,
                Ok::<Option<T>, E>(found),
            ),
            forall|more: Seq<(int, Result<Option<T>, E>)>, end: Result<Option<T>, E>|
                #[trigger] replayed(from as int, to as int, found, more, end) ==> replayed(
                    low as int,
                    high as int,
                    best,
                    trail + more,
                    end,
                ),
            forall|n: usize| low <= n <= high ==> #[trigger] call_requires(*probe, (n,)),
            forall|answer: spec_fn(int) -> Result<Option<T>, E>|
                #[trigger] describes(*probe, answer) ==> probed(
                    low as int,
                    high as int,
                    best,
                    answer,
                ) == probed(from as int, to as int, found, answer),
        ensures
            answered(*probe, trail),
            replayed(low as int, high as int, best, trail, Ok::<Option<T>, E>(found)),
            forall|answer: spec_fn(int) -> Result<Option<T>, E>|
                #[trigger] describes(*probe, answer) ==> probed(
                    low as int,
                    high as int,
                    best,
                    answer,
                ) == Ok::<Option<T>, E>(found),
        decreases to + 1 - from,
    {
        let middle: usize = from + (to - from) / 2;
        let reply = probe(middle);
        let ghost heard = reply;
        let ghost before = (from as int, to as int, found, trail);
        let ghost step = (middle as int, reply);
        let ghost nothing = Seq::<(int, Result<Option<T>, E>)>::empty();
        proof {
            reveal_with_fuel(probed, 3);
            trail = trail.push(step);
            assert forall|more: Seq<(int, Result<Option<T>, E>)>| #[trigger]
                (trail + more) == before.3 + (seq![step] + more) by {
                assert(trail + more =~= before.3 + (seq![step] + more));
            }
            assert(trail + nothing =~= trail);
            assert forall|answer: spec_fn(int) -> Result<Option<T>, E>|
                #[trigger] describes(*probe, answer) implies answer(middle as int) == heard by {
                assert(call_ensures(*probe, (middle,), heard));
            }
        }
        match reply {
            Err(error) => {
                proof {
                    let end = Err::<Option<T>, E>(error);
                    one_more_probe(before.0, before.1, before.2, heard, nothing, end);
                    assert(trail + nothing == before.3 + (seq![step] + nothing));
                    assert(answered(*probe, trail));
                    outcome_was_answered(*probe, low as int, high as int, best, trail, end);
                }
                return Err(error);
            },
            Ok(Some(candidate)) => {
                found = Some(candidate);
                proof {
                    assert forall|
                        more: Seq<(int, Result<Option<T>, E>)>,
                        end: Result<Option<T>, E>,
                    | #[trigger]
                        replayed(middle + 1, to as int, found, more, end) implies replayed(
                        low as int,
                        high as int,
                        best,
                        trail + more,
                        end,
                    ) by {
                        one_more_probe(before.0, before.1, before.2, heard, more, end);
                    }
                }
                if middle == usize::MAX {
                    assert(replayed(middle + 1, to as int, found, nothing, Ok(found)));
                    break;
                }
                from = middle + 1;
            },
            Ok(None) => {
                proof {
                    assert forall|
                        more: Seq<(int, Result<Option<T>, E>)>,
                        end: Result<Option<T>, E>,
                    | #[trigger]
                        replayed(from as int, middle - 1, found, more, end) implies replayed(
                        low as int,
                        high as int,
                        best,
                        trail + more,
                        end,
                    ) by {
                        one_more_probe(before.0, before.1, before.2, heard, more, end);
                    }
                }
                if middle == 0 {
                    assert(replayed(from as int, middle - 1, found, nothing, Ok(found)));
                    break;
                }
                to = middle - 1;
            },
        }
        proof {
            if from > to {
                assert(replayed(from as int, to as int, found, nothing, Ok(found)));
            }
        }
    }
    proof {
        outcome_was_answered(*probe, low as int, high as int, best, trail, Ok(found));
    }
    Ok(found)
}

/// For a probe that hits up to some bound and misses above it, the search finds the greatest
/// hit, or nothing when even the lowest is a miss.
pub proof fn probed_finds_greatest<T, E>(
    low: int,
    high: int,
    best: Option<T>,
    answer: spec_fn(int) -> Result<Option<T>, E>,
    bound: int,
)
    requires
        0 <= low,
        low <= high + 1,
        low - 1 <= bound <= high,
        forall|n: int|
            low <= n <= high ==> match #[trigger] answer(n) {
                Ok(Some(_)) => n <= bound,
                Ok(None) => n > bound,
                Err(_) => false,
            },
    ensures
        probed(low, high, best, answer) == if bound < low {
            Ok::<Option<T>, E>(best)
        } else {
            answer(bound)
        },
    decreases high - low + 1,
{
    if low <= high {
        let middle = low + (high - low) / 2;
        match answer(middle) {
            Ok(Some(found)) => {
                probed_finds_greatest(middle + 1, high, Some(found), answer, bound);
            },
            Ok(None) => {
                probed_finds_greatest(low, middle - 1, best, answer, bound);
            },
            Err(_) => {},
        }
    }
}

} // verus!
