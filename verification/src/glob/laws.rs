//! What a listing promises, said of entries, times and paths alone.

use crate::glob::entry;
use crate::glob::entry::{
    EntryKind, EntryMetadata, Evaluated, GlobCandidate, MatchSpec, ModifiedTime, StatAnswer,
};
use crate::glob::listing;
use crate::glob::listing::GlobPage;
use crate::glob::request::{GlobOutputMode, GlobRequest, SortMode};
use crate::head_note::NoteSpec;
use crate::ordering;
use crate::ordering::{comes_before, smaller_comes_before};
use crate::page;
use crate::page::UnitsSpec;
use crate::text;
use vstd::prelude::*;
use vstd::string::*;
use vstd::utf8::*;

verus! {

/// The metadata that tells of an entry. For a link it is that of the file it leads to; for a file
/// its own, or with links followed where its own was not to be had.
pub open spec fn answered(candidate: GlobCandidate) -> Option<EntryMetadata> {
    let own = match candidate.plain {
        Some(StatAnswer::File(metadata)) => Some(metadata),
        _ => None,
    };
    let followed = match candidate.followed {
        Some(StatAnswer::File(metadata)) => Some(metadata),
        _ => None,
    };
    match candidate.kind {
        EntryKind::Other => None,
        EntryKind::Link => followed,
        EntryKind::File => if own is Some {
            own
        } else if candidate.plain matches Some(StatAnswer::NotFile) {
            None
        } else {
            followed
        },
    }
}

/// The nanoseconds since the begin of 1970, negative before it.
pub open spec fn nanos_of(time: ModifiedTime) -> int {
    let distance = 1000000000 * time.seconds + time.nanoseconds;
    if time.earlier {
        0 - distance
    } else {
        distance
    }
}

/// A file is listed only where the patterns match its path, under its own path, and with the time
/// that its metadata gives wherever times matter: for their order, or among the details. A listing
/// of paths shows the path; a listing of details shows path, size and time of that metadata.
pub proof fn files_are_listed_with_their_own_data(
    candidate: GlobCandidate,
    sort: SortMode,
    output_mode: GlobOutputMode,
)
    ensures
        entry::evaluated(candidate, sort, output_mode) matches Evaluated::Take(found) ==> {
            &&& candidate.matched
            &&& !(candidate.kind is Other)
            &&& found.display == candidate.display@
            &&& found.native_key == candidate.native_key@
            &&& output_mode is Paths ==> found.rendered == candidate.display@
            &&& sort is Modified || output_mode is Details ==> {
                &&& answered(candidate) matches Some(metadata)
                &&& metadata.modified matches Ok(time)
                &&& found.modified == Some(time)
                &&& output_mode is Details ==> entry::match_details(
                    candidate.display@,
                    Some(metadata.bytes),
                    Some(time),
                ) == Ok::<Seq<char>, Seq<char>>(found.rendered)
            }
        },
        !candidate.matched || candidate.kind is Other ==> entry::evaluated(
            candidate,
            sort,
            output_mode,
        ) is Skip,
{
}

/// Every file that the patterns match is listed, as far as its metadata is needed and tells of it.
pub proof fn every_matching_file_is_listed(
    candidate: GlobCandidate,
    sort: SortMode,
    output_mode: GlobOutputMode,
)
    requires
        candidate.matched,
    ensures
        candidate.kind is File && sort is Path && output_mode is Paths ==> entry::evaluated(
            candidate,
            sort,
            output_mode,
        ) is Take,
        answered(candidate) matches Some(metadata) ==> {
            &&& output_mode is Paths && (sort is Path || metadata.modified is Ok)
                ==> entry::evaluated(candidate, sort, output_mode) is Take
            &&& output_mode is Details ==> (metadata.modified matches Ok(time) ==> (
            entry::evaluated(candidate, sort, output_mode) is Take <==> entry::match_details(
                candidate.display@,
                Some(metadata.bytes),
                Some(time),
            ) is Ok))
            &&& !(sort is Path && output_mode is Paths) ==> (metadata.modified matches Err(message)
                ==> entry::evaluated(candidate, sort, output_mode) == Evaluated::Fail(message@))
        },
        candidate.kind is Link && answered(candidate) is None ==> !(entry::evaluated(
            candidate,
            sort,
            output_mode,
        ) is Take),
{
}

/// The details of a file are one JSON object with its path, its size in bytes and its time.
pub proof fn details_name_path_size_and_time(path: Seq<char>, bytes: u64, time: ModifiedTime)
    ensures
        entry::match_details(path, Some(bytes), Some(time)) matches Ok(written) ==> {
            &&& entry::moment_text(
                nanos_of(time),
                0,
                "[year]-[month]-[day]T[hour]:[minute]:[second].[subsecond digits:9]Z"@,
            ) matches Ok(moment)
            &&& entry::json_text(path) matches Ok(quoted_path)
            &&& entry::json_text(moment) matches Ok(quoted_moment)
            &&& written == "{\"path\":"@ + quoted_path + ",\"bytes\":"@ + text::decimal(
                bytes as nat,
            ) + ",\"modified\":"@ + quoted_moment + "}"@
        },
{
}

/// Whether a candidate is the one that a file of a listing was made from.
pub open spec fn made_from(
    found: MatchSpec,
    candidate: GlobCandidate,
    sort: SortMode,
    output_mode: GlobOutputMode,
) -> bool {
    entry::evaluated(candidate, sort, output_mode) == Evaluated::Take(found)
}

/// The listed files are made from entries of the walk, in the order of the walk, one from each that
/// is listed.
pub proof fn listed_files_come_from_the_walk(
    candidates: Seq<GlobCandidate>,
    sort: SortMode,
    output_mode: GlobOutputMode,
) -> (sources: Seq<int>)
    ensures
        sources.len() == entry::matches_of(candidates, sort, output_mode).len(),
        forall|i: int|
            0 <= i < sources.len() ==> {
                &&& 0 <= #[trigger] sources[i] < candidates.len()
                &&& made_from(
                    entry::matches_of(candidates, sort, output_mode)[i],
                    candidates[sources[i]],
                    sort,
                    output_mode,
                )
            },
        forall|i: int, j: int|
            0 <= i < j < sources.len() ==> #[trigger] sources[i] < #[trigger] sources[j],
        forall|k: int|
            0 <= k < candidates.len() ==> (sources.contains(k) <==> entry::evaluated(
                #[trigger] candidates[k],
                sort,
                output_mode,
            ) is Take),
    decreases candidates.len(),
{
    if candidates.len() == 0 {
        Seq::empty()
    } else {
        let rest = candidates.drop_last();
        let at = rest.len() as int;
        let before = listed_files_come_from_the_walk(rest, sort, output_mode);
        let earlier = entry::matches_of(rest, sort, output_mode);
        let found = entry::matches_of(candidates, sort, output_mode);
        let taken = entry::evaluated(candidates.last(), sort, output_mode) is Take;
        let sources = if taken {
            before.push(at)
        } else {
            before
        };
        assert forall|i: int| 0 <= i < sources.len() implies {
            &&& 0 <= #[trigger] sources[i] < candidates.len()
            &&& made_from(found[i], candidates[sources[i]], sort, output_mode)
        } by {
            if i < before.len() {
                assert(sources[i] == before[i]);
                assert(rest[before[i]] == candidates[before[i]]);
                assert(found[i] == earlier[i]);
            }
        }
        assert forall|i: int, j: int| 0 <= i < j < sources.len() implies #[trigger] sources[i]
            < #[trigger] sources[j] by {
            if j < before.len() {
                assert(sources[i] == before[i] && sources[j] == before[j]);
            } else {
                assert(sources[i] == before[i]);
            }
        }
        assert forall|k: int| 0 <= k < candidates.len() implies (sources.contains(k)
            <==> entry::evaluated(#[trigger] candidates[k], sort, output_mode) is Take) by {
            if k < at {
                assert(rest[k] == candidates[k]);
                if before.contains(k) {
                    let i = before.index_of(k);
                    assert(sources[i] == k);
                }
                if sources.contains(k) {
                    let i = sources.index_of(k);
                    assert(before[i] == k);
                }
            } else {
                if taken {
                    assert(sources[sources.len() - 1] == at);
                } else if sources.contains(k) {
                    let i = sources.index_of(k);
                    assert(before[i] == k);
                }
            }
        }
        sources
    }
}

/// In a listing ordered by time, in either output mode, of two files with different times of
/// modification the later one stands first; the times are those that the metadata of the two
/// entries gave. Files of the same time stand in the order of the bytes of their paths.
pub proof fn later_files_stand_first(
    candidates: Seq<GlobCandidate>,
    order: Seq<usize>,
    request: GlobRequest,
    i: int,
    j: int,
)
    requires
        listing::ordered_for(order, candidates, request),
        request.sort == Some(SortMode::Modified),
        0 <= i < j < order.len(),
    ensures
        ({
            let mode = match request.output_mode {
                Some(mode) => mode,
                None => GlobOutputMode::Paths,
            };
            let found = entry::matches_of(candidates, SortMode::Modified, mode);
            let lines = listing::rendered_in_order(found, order);
            exists|k: int, l: int|
                #![trigger candidates[k], candidates[l]]
                {
                    &&& 0 <= k < candidates.len()
                    &&& 0 <= l < candidates.len()
                    &&& k != l
                    &&& made_from(found[order[i] as int], candidates[k], SortMode::Modified, mode)
                    &&& made_from(found[order[j] as int], candidates[l], SortMode::Modified, mode)
                    &&& lines[i] == found[order[i] as int].rendered
                    &&& lines[j] == found[order[j] as int].rendered
                    &&& answered(candidates[k]) matches Some(first)
                    &&& answered(candidates[l]) matches Some(second)
                    &&& first.modified matches Ok(time)
                    &&& second.modified matches Ok(other)
                    &&& nanos_of(time) >= nanos_of(other)
                    &&& nanos_of(time) == nanos_of(other) ==> in_path_order(
                        candidates[k],
                        candidates[l],
                    )
                }
        }),
{
    let mode = listing::requested_output(request);
    let found = entry::matches_of(candidates, SortMode::Modified, mode);
    let sources = listed_files_come_from_the_walk(candidates, SortMode::Modified, mode);
    let keys = listing::entry_keys(SortMode::Modified, found);
    let one = order[i] as int;
    let other = order[j] as int;
    assert(order[i] != order[j]);
    let k = sources[one];
    let l = sources[other];
    if one < other {
        assert(sources[one] < sources[other]);
    } else {
        assert(sources[other] < sources[one]);
    }
    files_are_listed_with_their_own_data(candidates[k], SortMode::Modified, mode);
    files_are_listed_with_their_own_data(candidates[l], SortMode::Modified, mode);
    assert(ordering::entry_less(keys, one, other));
    keys_give_path_order(keys, one, other, candidates[k], candidates[l]);
}

/// In a listing ordered by path, files stand in the order of the bytes of their paths.
pub proof fn paths_stand_in_byte_order(
    candidates: Seq<GlobCandidate>,
    order: Seq<usize>,
    request: GlobRequest,
    i: int,
    j: int,
)
    requires
        listing::ordered_for(order, candidates, request),
        request.sort is None || request.sort == Some(SortMode::Path),
        0 <= i < j < order.len(),
    ensures
        ({
            let mode = match request.output_mode {
                Some(mode) => mode,
                None => GlobOutputMode::Paths,
            };
            let found = entry::matches_of(candidates, SortMode::Path, mode);
            let lines = listing::rendered_in_order(found, order);
            exists|k: int, l: int|
                #![trigger candidates[k], candidates[l]]
                {
                    &&& 0 <= k < candidates.len()
                    &&& 0 <= l < candidates.len()
                    &&& k != l
                    &&& made_from(found[order[i] as int], candidates[k], SortMode::Path, mode)
                    &&& made_from(found[order[j] as int], candidates[l], SortMode::Path, mode)
                    &&& lines[i] == found[order[i] as int].rendered
                    &&& lines[j] == found[order[j] as int].rendered
                    &&& in_path_order(candidates[k], candidates[l])
                }
        }),
{
    let mode = listing::requested_output(request);
    let found = entry::matches_of(candidates, SortMode::Path, mode);
    let sources = listed_files_come_from_the_walk(candidates, SortMode::Path, mode);
    let keys = listing::entry_keys(SortMode::Path, found);
    let one = order[i] as int;
    let other = order[j] as int;
    assert(order[i] != order[j]);
    let k = sources[one];
    let l = sources[other];
    if one < other {
        assert(sources[one] < sources[other]);
    } else {
        assert(sources[other] < sources[one]);
    }
    files_are_listed_with_their_own_data(candidates[k], SortMode::Path, mode);
    files_are_listed_with_their_own_data(candidates[l], SortMode::Path, mode);
    assert(ordering::entry_less(keys, one, other));
    keys_give_path_order(keys, one, other, candidates[k], candidates[l]);
}

/// Every listed file has exactly one place in the order.
pub proof fn every_listed_file_has_one_place(
    candidates: Seq<GlobCandidate>,
    order: Seq<usize>,
    request: GlobRequest,
)
    requires
        listing::ordered_for(order, candidates, request),
    ensures
        ({
            let sort = match request.sort {
                Some(sort) => sort,
                None => SortMode::Path,
            };
            let mode = match request.output_mode {
                Some(mode) => mode,
                None => GlobOutputMode::Paths,
            };
            let found = entry::matches_of(candidates, sort, mode);
            &&& order.len() == found.len()
            &&& forall|i: int|
                0 <= i < order.len() ==> 0 <= (#[trigger] order[i]) < found.len()
            &&& forall|i: int, j: int|
                0 <= i < j < order.len() ==> #[trigger] order[i] != #[trigger] order[j]
            &&& listing::rendered_in_order(found, order).len() == found.len()
        }),
{
}

/// The note of a page with so many files from an offset on.
pub open spec fn page_note(offset: int, shown: int, total: nat) -> NoteSpec {
    let covered = if shown == 1 {
        text::decimal((offset + 1) as nat)
    } else {
        text::decimal((offset + 1) as nat) + "-"@ + text::decimal((offset + shown) as nat)
    };
    NoteSpec {
        subject: "glob"@,
        metric: "files "@ + covered + " of "@ + text::decimal(total),
        facts: Seq::empty(),
    }
}

/// Where a page of files begins, counted from 0.
pub open spec fn wanted_offset(request: GlobRequest) -> int {
    match request.offset {
        Some(offset) => offset as int,
        None => 0,
    }
}

/// How many files a page has at most.
pub open spec fn wanted_limit(request: GlobRequest) -> int {
    match request.limit {
        Some(limit) => limit as int,
        None => 100,
    }
}

/// A page that fits its budget shows the files from the offset on, as many as the request has (100
/// where it does not say) and as are left, below a note of which of how many these are.
pub proof fn a_page_shows_the_files_from_the_offset_on(
    candidates: Seq<GlobCandidate>,
    order: Seq<usize>,
    units: UnitsSpec,
    request: GlobRequest,
    budget: usize,
    variable: Seq<char>,
    cost: spec_fn(Seq<char>) -> nat,
    lines: Seq<Seq<char>>,
    shown: int,
)
    requires
        lines == listing::rendered_in_order(
            entry::matches_of(
                candidates,
                listing::requested_sort(request),
                listing::requested_output(request),
            ),
            order,
        ),
        shown > 0,
        units.details.len() <= usize::MAX,
        wanted_offset(request) + shown <= lines.len() <= usize::MAX,
        shown == wanted_limit(request) || shown < wanted_limit(request) && wanted_offset(request)
            + shown == lines.len(),
        ({
            let note = page_note(wanted_offset(request), shown, lines.len());
            let body = lines.subrange(wanted_offset(request), wanted_offset(request) + shown);
            &&& cost(units.page(note, body, 0)) <= budget
            &&& cost(units.page(note, body, units.details.len() as int)) <= budget
        }),
    ensures
        listing::glob_page(candidates, order, units, request, budget, variable, cost)
            == GlobPage::Text(
            units.page(
                page_note(wanted_offset(request), shown, lines.len()),
                lines.subrange(wanted_offset(request), wanted_offset(request) + shown),
                units.details.len() as int,
            ),
        ),
{
    let offset = match request.offset {
        Some(offset) => offset,
        None => 0,
    };
    let part = lines.subrange(offset as int, offset + shown);
    assert(part.take(shown) =~= part);
    let note = listing::glob_note(
        listing::glob_coverage(offset, shown as usize, lines.len() as usize),
    );
    assert(note == page_note(offset as int, shown, lines.len()));
    let costs = listing::file_costs(units, part, offset, lines.len() as usize, cost);
    assert(costs(shown) <= budget);
    assert(page::page_costs(units, note, part, cost)(units.details.len() as int) <= budget);
}

/// Whether an entry may stand before another by their paths: by the bytes of the path as it is
/// shown, and where that is the same by the bytes of the path as the system knows it.
pub open spec fn in_path_order(left: GlobCandidate, right: GlobCandidate) -> bool {
    if left.display@ != right.display@ {
        comes_before(encode_utf8(left.display@), encode_utf8(right.display@))
    } else {
        left.native_key@ == right.native_key@ || comes_before(left.native_key@, right.native_key@)
    }
}

proof fn keys_give_path_order(
    keys: Seq<ordering::KeySpec>,
    one: int,
    other: int,
    left: GlobCandidate,
    right: GlobCandidate,
)
    requires
        ordering::entry_less(keys, one, other),
        keys[one].first == encode_utf8(left.display@),
        keys[other].first == encode_utf8(right.display@),
        keys[one].second == left.native_key@,
        keys[other].second == right.native_key@,
    ensures
        keys[one].rank <= keys[other].rank,
        keys[one].rank == keys[other].rank ==> in_path_order(left, right),
{
    encode_utf8_decode_utf8(left.display@);
    encode_utf8_decode_utf8(right.display@);
    if keys[one] != keys[other] && keys[one].rank == keys[other].rank {
        if keys[one].first != keys[other].first {
            smaller_comes_before(keys[one].first, keys[other].first);
        } else {
            smaller_comes_before(keys[one].second, keys[other].second);
        }
    }
}

/// A glob is answered with a page exactly where its directory was found and walked, its patterns
/// compile, its limit is from 1 to 1000, and no more than 100000 files match.
pub proof fn a_glob_is_answered_where_it_can_be(request: GlobRequest, input: listing::GlobInput)
    ensures
        listing::glob_failure(request, input) is None <==> {
            &&& input.root is Ok
            &&& input.patterns is Ok
            &&& request.limit matches Some(limit) ==> 1 <= limit <= 1000
            &&& input.walked matches Ok(candidates)
            &&& entry::matches_of(
                candidates@,
                listing::requested_sort(request),
                listing::requested_output(request),
            ).len() <= 100000
        },
        input.root matches Err(message) ==> listing::glob_failure(request, input) == Some(message@),
        listing::requested_sort(request) == match request.sort {
            Some(sort) => sort,
            None => SortMode::Path,
        },
        listing::requested_output(request) == match request.output_mode {
            Some(mode) => mode,
            None => GlobOutputMode::Paths,
        },
{
}

} // verus!
