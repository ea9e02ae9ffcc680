//! Laws of what a search reads and what a listing lists: the files in scope, the files that are
//! wanted next, and the counts that a result gives.

use crate::file_entry::Timestamp;
use crate::filters::PathFilters;
use crate::grep::file_scanned;
use crate::grep::match_views;
use crate::grep::scan_exhausted;
use crate::grep::with_ranges;
use crate::grep::FileScan;
use crate::grep::GrepCounters;
use crate::grep::GrepLimits;
use crate::ingest::path_views;
use crate::lines::line_of;
use crate::outside::looks_binary;
use crate::path::within_root;
use crate::path::PathKey;
use crate::postings::PostingReads;
use crate::query::RegexQuery;
use crate::ranking_laws::is_rearrangement;
use crate::ranking_laws::lemma_files_are_ordered;
use crate::ranking_laws::lemma_matches_are_ordered;
use crate::ranking_laws::match_may_come_first;
use crate::ranking_laws::path_may_come_first;
use crate::search::asked;
use crate::search::fed;
use crate::search::fresh_scan;
use crate::search::glob_flags;
use crate::search::glob_slots;
use crate::search::globs_with;
use crate::search::in_scope;
use crate::search::known_time;
use crate::search::known_times;
use crate::search::search_of;
use crate::search::searches;
use crate::search::selected;
use crate::search::slot_paths;
use crate::search::slot_times;
use crate::search::GlobResult;
use crate::search::GrepResult;
use crate::search::IndexStatus;
use crate::search::ScanView;
use crate::snapshot::SnapshotView;
use vstd::prelude::*;

verus! {

// ---------------------------------------------------------------------------------------------
// Scope
// ---------------------------------------------------------------------------------------------

proof fn lemma_selected_files(
    view: SnapshotView,
    ids: Seq<u32>,
    root: PathKey,
    left_out: Seq<bool>,
    accepted: Seq<bool>,
    count: int,
    id: u32,
)
    requires
        0 <= count <= ids.len(),
    ensures
        selected(view, ids, root, left_out, accepted, count).contains(id) <==> exists|k: int|
            0 <= k < count && #[trigger] ids[k] == id && id < view.files.len()
                && view.files[id as int].path.len() > 0 && within_root(
                root,
                view.files[id as int].path,
            ) && !left_out[k] && accepted[k],
    decreases count,
{
    if count > 0 {
        lemma_selected_files(view, ids, root, left_out, accepted, count - 1, id);
        let earlier = selected(view, ids, root, left_out, accepted, count - 1);
        let all = selected(view, ids, root, left_out, accepted, count);
        let last = ids[count - 1];
        if earlier.contains(id) {
            assert(all[earlier.index_of(id)] == id);
        }
        if all.len() > earlier.len() {
            assert(all[earlier.len() as int] == last);
        }
        if all.contains(id) && !earlier.contains(id) {
            let k = all.index_of(id);
            if k < earlier.len() {
                assert(earlier[k] == id);
            }
        }
    }
}

proof fn lemma_selected_files_stay_in_order(
    view: SnapshotView,
    ids: Seq<u32>,
    root: PathKey,
    left_out: Seq<bool>,
    accepted: Seq<bool>,
    count: int,
)
    requires
        0 <= count <= ids.len(),
        forall|i: int, j: int| 0 <= i < j < ids.len() ==> ids[i] < ids[j],
    ensures
        ({
            let kept = selected(view, ids, root, left_out, accepted, count);
            &&& kept.len() > 0 ==> kept.last() <= ids[count - 1]
            &&& forall|i: int, j: int| 0 <= i < j < kept.len() ==> kept[i] < kept[j]
        }),
    decreases count,
{
    if count > 0 {
        lemma_selected_files_stay_in_order(view, ids, root, left_out, accepted, count - 1);
        let earlier = selected(view, ids, root, left_out, accepted, count - 1);
        let kept = selected(view, ids, root, left_out, accepted, count);
        if count > 1 {
            assert(ids[count - 2] < ids[count - 1]);
        }
        if kept.len() > earlier.len() && earlier.len() > 0 {
            assert forall|i: int, j: int| 0 <= i < j < kept.len() implies kept[i] < kept[j] by {
                assert(kept[i] == earlier[i]);
                assert(earlier[i] <= earlier.last());
                if j < earlier.len() {
                    assert(kept[j] == earlier[j]);
                }
            }
        }
    }
}

/// The files that a search reads are the candidates of its query that lie in its scope, that the
/// caller did not leave out, and that the filters accept. Each is read once, in the order of the
/// index.
pub proof fn lemma_searched_files_are_candidates_in_scope(
    view: SnapshotView,
    query: RegexQuery,
    reads: PostingReads,
    filters: PathFilters,
    root: PathKey,
    excluded: Seq<bool>,
    kept: Seq<u32>,
    id: u32,
)
    requires
        searches(view, query, reads, filters, root, excluded, kept),
    ensures
        kept.contains(id) <==> {
            &&& view.is_candidate(reads, query, id)
            &&& id < view.files.len()
            &&& view.files[id as int].path.len() > 0
            &&& within_root(root, view.files[id as int].path)
            &&& !(id < excluded.len() && excluded[id as int])
            &&& filters.accepts(view.project_root, view.files[id as int].path)
        },
        forall|i: int, j: int| 0 <= i < j < kept.len() ==> kept[i] < kept[j],
{
    let (ids, left_out, accepted) = choose|ids: Seq<u32>, left_out: Seq<bool>, accepted: Seq<bool>|
        #[trigger]
        search_of(view, query, reads, filters, root, excluded, kept, ids, left_out, accepted);
    lemma_selected_files(view, ids, root, left_out, accepted, ids.len() as int, id);
    lemma_selected_files_stay_in_order(view, ids, root, left_out, accepted, ids.len() as int);
    if ids.contains(id) {
        let k = ids.index_of(id);
        assert(ids[k] == id);
        assert(left_out[k] == (id < excluded.len() && excluded[id as int]));
        if id < view.files.len() {
            assert(accepted[k] == filters.accepts(view.project_root, view.files[id as int].path));
        }
    }
    if kept.contains(id) {
        let k = choose|k: int|
            0 <= k < ids.len() && #[trigger] ids[k] == id && id < view.files.len()
                && view.files[id as int].path.len() > 0 && within_root(
                root,
                view.files[id as int].path,
            ) && !left_out[k] && accepted[k];
        assert(ids.contains(ids[k]));
        assert(left_out[k] == (id < excluded.len() && excluded[id as int]));
        assert(accepted[k] == filters.accepts(view.project_root, view.files[id as int].path));
    }
}

proof fn lemma_glob_slots_are_filtered(
    view: SnapshotView,
    root: PathKey,
    accepted: Seq<bool>,
    count: int,
)
    requires
        0 <= count <= view.files.len(),
    ensures
        glob_slots(view, root, accepted, count) == Seq::new(count as nat, |slot: int| slot).filter(
            |slot: int|
                view.files[slot].path.len() > 0 && within_root(root, view.files[slot].path)
                    && accepted[slot],
        ),
    decreases count,
{
    reveal(Seq::filter);
    let all = Seq::new(count as nat, |slot: int| slot);
    if count > 0 {
        lemma_glob_slots_are_filtered(view, root, accepted, count - 1);
        assert(all.drop_last() =~= Seq::new((count - 1) as nat, |slot: int| slot));
    }
}

/// The slots of the files that a listing lists: in order, those that lie in its scope and whose path
/// the filters accept.
pub open spec fn listed_slots(view: SnapshotView, filters: PathFilters, root: PathKey) -> Seq<int> {
    Seq::new(view.files.len(), |slot: int| slot).filter(
        |slot: int|
            view.files[slot].path.len() > 0 && within_root(root, view.files[slot].path)
                && filters.accepts(view.project_root, view.files[slot].path),
    )
}

proof fn lemma_flags_choose_the_listed_slots(
    view: SnapshotView,
    filters: PathFilters,
    root: PathKey,
    accepted: Seq<bool>,
)
    requires
        glob_flags(view, filters, accepted),
    ensures
        glob_slots(view, root, accepted, view.files.len() as int) == listed_slots(
            view,
            filters,
            root,
        ),
        forall|i: int|
            0 <= i < listed_slots(view, filters, root).len() ==> 0 <= #[trigger] listed_slots(
                view,
                filters,
                root,
            )[i] < view.files.len(),
{
    lemma_glob_slots_are_filtered(view, root, accepted, view.files.len() as int);
    let all = Seq::new(view.files.len(), |slot: int| slot);
    let by_flag = |slot: int|
        view.files[slot].path.len() > 0 && within_root(root, view.files[slot].path)
            && accepted[slot];
    let by_filter = |slot: int|
        view.files[slot].path.len() > 0 && within_root(root, view.files[slot].path)
            && filters.accepts(view.project_root, view.files[slot].path);
    lemma_same_tests_filter_alike(all, by_flag, by_filter);
    let listed = all.filter(by_filter);
    assert forall|i: int| 0 <= i < listed.len() implies 0 <= #[trigger] listed[i] < view.files.len() by {
        assert(listed.contains(listed[i]));
        all.lemma_filter_contains_rev(by_filter, listed[i]);
    }
}

proof fn lemma_same_tests_filter_alike(
    all: Seq<int>,
    first: spec_fn(int) -> bool,
    second: spec_fn(int) -> bool,
)
    requires
        forall|i: int| 0 <= i < all.len() ==> first(#[trigger] all[i]) == second(all[i]),
    ensures
        all.filter(first) == all.filter(second),
    decreases all.len(),
{
    reveal(Seq::filter);
    if all.len() > 0 {
        let front = all.drop_last();
        assert forall|i: int| 0 <= i < front.len() implies first(#[trigger] front[i]) == second(
            front[i],
        ) by {
            assert(front[i] == all[i]);
        }
        lemma_same_tests_filter_alike(front, first, second);
        assert(first(all[all.len() - 1]) == second(all[all.len() - 1]));
    }
}

/// A listing lists each file in scope that the filters accept once, in the order of the index; or, by
/// time, the ones changed last before the others. It tells whether anything is in scope, whatever the
/// filters, and how many files it looked at.
pub proof fn lemma_listings_list_the_files_in_scope(
    view: SnapshotView,
    filters: PathFilters,
    root: PathKey,
    sort_by_mtime: bool,
    result: GlobResult,
) -> (order: Seq<usize>)
    requires
        globs_with(view, filters, root, sort_by_mtime, result),
    ensures
        ({
            let slots = listed_slots(view, filters, root);
            &&& result.entries_visited == view.files.len()
            &&& result.paths@.len() == slots.len()
            &&& !sort_by_mtime ==> forall|i: int|
                0 <= i < slots.len() ==> #[trigger] result.paths@[i]@ == view.files[slots[i]].path
            &&& sort_by_mtime ==> {
                &&& is_rearrangement(order, slots.len())
                &&& forall|i: int|
                    0 <= i < slots.len() ==> #[trigger] result.paths@[i]@
                        == view.files[slots[order[i] as int]].path
                &&& forall|i: int, j: int|
                    #![trigger order[i], order[j]]
                    0 <= i < j < slots.len() ==> path_may_come_first(
                        view.files[slots[order[i] as int]].path,
                        Seq::empty(),
                        Some(view.files[slots[order[i] as int]].modified),
                        view.files[slots[order[j] as int]].path,
                        Seq::empty(),
                        Some(view.files[slots[order[j] as int]].modified),
                    )
            }
            &&& result.scope_has_files <==> exists|slot: int|
                0 <= slot < view.files.len() && (#[trigger] view.files[slot]).path.len() > 0
                    && within_root(root, view.files[slot].path)
        }),
{
    let accepted = choose|accepted: Seq<bool>| #[trigger]
        glob_flags(view, filters, accepted) && result.lists(view, root, accepted, sort_by_mtime);
    lemma_flags_choose_the_listed_slots(view, filters, root, accepted);
    let slots = listed_slots(view, filters, root);
    let paths = slot_paths(view, slots);
    let times = slot_times(view, slots);
    let given = path_views(result.paths@);
    assert(given.len() == result.paths@.len());
    assert(paths.len() == slots.len());
    if exists|slot: int|
        0 <= slot < view.files.len() && (#[trigger] view.files[slot]).path.len() > 0 && within_root(
            root,
            view.files[slot].path,
        ) {
        let slot = choose|slot: int|
            0 <= slot < view.files.len() && (#[trigger] view.files[slot]).path.len() > 0
                && within_root(root, view.files[slot].path);
        assert(in_scope(view, root, slot));
    }
    if sort_by_mtime {
        let order = lemma_files_are_ordered(paths, times, given);
        assert forall|i: int| 0 <= i < slots.len() implies #[trigger] result.paths@[i]@
            == view.files[slots[order[i] as int]].path by {
            assert(given[i] == result.paths@[i]@);
            assert(given[i] == paths[order[i] as int]);
        }
        assert forall|i: int, j: int|
            #![trigger order[i], order[j]]
            0 <= i < j < slots.len() implies path_may_come_first(
            view.files[slots[order[i] as int]].path,
            Seq::empty(),
            Some(view.files[slots[order[i] as int]].modified),
            view.files[slots[order[j] as int]].path,
            Seq::empty(),
            Some(view.files[slots[order[j] as int]].modified),
        ) by {
            assert(paths[order[i] as int] == view.files[slots[order[i] as int]].path);
            assert(paths[order[j] as int] == view.files[slots[order[j] as int]].path);
            assert(times[order[i] as int] == view.files[slots[order[i] as int]].modified);
            assert(times[order[j] as int] == view.files[slots[order[j] as int]].modified);
        }
        order
    } else {
        assert(given == paths);
        assert forall|i: int| 0 <= i < slots.len() implies #[trigger] result.paths@[i]@
            == view.files[slots[i]].path by {
            assert(given[i] == result.paths@[i]@);
            assert(given[i] == paths[i]);
        }
        Seq::empty()
    }
}

// ---------------------------------------------------------------------------------------------
// Scans
// ---------------------------------------------------------------------------------------------

/// A scan begins with nothing counted. More than ten files are read side by side.
pub proof fn lemma_scans_begin_with_nothing(
    max_results: usize,
    candidate_count: int,
    file_limit: Option<usize>,
)
    ensures
        ({
            let scan = fresh_scan(max_results, candidate_count, file_limit);
            &&& scan.counters.total_matches == 0
            &&& scan.counters.files_searched == 0
            &&& scan.counters.files_with_matches == 0
            &&& scan.counters.bytes_verified == 0
            &&& !scan.counters.truncated && !scan.counters.engine_capped && !scan.counters.stop_scan
            &&& scan.matches.len() == 0 && scan.claims == 0 && !scan.done
            &&& scan.limits.max_results == max_results
            &&& scan.limits.side_by_side <==> candidate_count >= 11
            &&& scan.file_limit == file_limit
        }),
{
}

/// The next file is wanted unless the scan is over: without a limit always, and with one while there
/// is time and fewer files than the limit were asked for. A file turned down for the limit or for
/// want of time leaves the result marked as cut off.
pub proof fn lemma_when_the_next_file_is_wanted(scan: ScanView, over_budget: bool)
    ensures
        ({
            let (next, wanted) = asked(scan, over_budget);
            &&& next.matches == scan.matches
            &&& next.counters.total_matches == scan.counters.total_matches
            &&& next.counters.files_searched == scan.counters.files_searched
            &&& next.counters.files_with_matches == scan.counters.files_with_matches
            &&& next.limits == scan.limits && next.file_limit == scan.file_limit
            &&& scan.done ==> !wanted
            &&& wanted ==> next.counters == scan.counters
            &&& !scan.done && !(scan.limits.side_by_side && scan_exhausted(
                scan.counters,
                scan.limits,
            )) ==> {
                &&& scan.file_limit is None ==> wanted && next == scan
                &&& scan.file_limit matches Some(limit) ==> {
                    &&& wanted <==> !over_budget && scan.claims < limit
                    &&& wanted ==> next.claims == scan.claims + 1
                    &&& !wanted ==> next.counters.truncated && next.counters.engine_capped
                }
            }
            &&& !scan.done && scan.limits.side_by_side && scan_exhausted(scan.counters, scan.limits)
                ==> !wanted && next.counters.engine_capped
        }),
{
}

/// A file that cannot be read changes nothing. One that looks binary only counts its bytes. Any other
/// counts as searched, whether or not something matches in it.
pub proof fn lemma_which_files_count_as_searched(
    counters: GrepCounters,
    file: PathKey,
    content: Seq<u8>,
    ranges: Seq<(usize, usize)>,
    limits: GrepLimits,
)
    requires
        !scan_exhausted(counters, limits),
        counters.files_searched < usize::MAX,
        counters.bytes_verified + content.len() <= usize::MAX,
    ensures
        file_scanned(counters, file, None, ranges, limits).counters == counters,
        file_scanned(counters, file, None, ranges, limits).matches.len() == 0,
        ({
            let outcome = file_scanned(counters, file, Some(content), ranges, limits);
            &&& outcome.counters.bytes_verified == counters.bytes_verified + content.len()
            &&& looks_binary(content) ==> {
                &&& outcome.matches.len() == 0
                &&& outcome.counters.files_searched == counters.files_searched
                &&& outcome.counters.total_matches == counters.total_matches
                &&& outcome.counters.files_with_matches == counters.files_with_matches
            }
            &&& !looks_binary(content) ==> outcome.counters.files_searched
                == counters.files_searched + 1
        }),
{
    let read = GrepCounters {
        files_searched: (counters.files_searched + 1) as usize,
        bytes_verified: (counters.bytes_verified + content.len()) as usize,
        ..counters
    };
    lemma_ranges_keep_counts(
        FileScan { counters: read, lines: Set::empty(), matches: Seq::empty(), done: false },
        file,
        content,
        ranges,
        ranges.len() as int,
        limits,
    );
}

proof fn lemma_ranges_keep_counts(
    scan: FileScan,
    file: PathKey,
    content: Seq<u8>,
    ranges: Seq<(usize, usize)>,
    count: int,
    limits: GrepLimits,
)
    ensures
        ({
            let next = with_ranges(scan, file, content, ranges, count, limits);
            &&& next.counters.files_searched == scan.counters.files_searched
            &&& next.counters.bytes_verified == scan.counters.bytes_verified
            &&& next.counters.files_with_matches == scan.counters.files_with_matches
        }),
    decreases count,
{
    if count > 0 {
        lemma_ranges_keep_counts(scan, file, content, ranges, count - 1, limits);
    }
}

proof fn lemma_lines_are_counted(
    scan: FileScan,
    file: PathKey,
    content: Seq<u8>,
    ranges: Seq<(usize, usize)>,
    count: int,
    limits: GrepLimits,
)
    requires
        0 <= count,
        scan.lines.is_empty(),
        scan.counters.total_matches + count <= usize::MAX,
    ensures
        ({
            let next = with_ranges(scan, file, content, ranges, count, limits);
            &&& scan.counters.total_matches <= next.counters.total_matches
                <= scan.counters.total_matches + count
            &&& next.lines.is_empty() <==> next.counters.total_matches
                == scan.counters.total_matches
        }),
    decreases count,
{
    if count > 0 {
        lemma_lines_are_counted(scan, file, content, ranges, count - 1, limits);
        let before = with_ranges(scan, file, content, ranges, count - 1, limits);
        let line = line_of(content, ranges[count - 1].0 as int);
        assert(before.lines.insert(line).contains(line));
    }
}

/// A file in which a line was counted counts as a file with matches, once, even where none of its lines
/// could be reported any more; any other file does not.
pub proof fn lemma_files_with_a_counted_line_have_matches(
    counters: GrepCounters,
    file: PathKey,
    content: Seq<u8>,
    ranges: Seq<(usize, usize)>,
    limits: GrepLimits,
)
    requires
        counters.total_matches + ranges.len() <= usize::MAX,
        counters.files_with_matches < usize::MAX,
    ensures
        ({
            let after = file_scanned(counters, file, Some(content), ranges, limits).counters;
            &&& after.total_matches > counters.total_matches ==> after.files_with_matches
                == counters.files_with_matches + 1
            &&& after.total_matches == counters.total_matches ==> after.files_with_matches
                == counters.files_with_matches
            &&& after.total_matches >= counters.total_matches
        }),
{
    if !scan_exhausted(counters, limits) && !looks_binary(content) {
        let read = GrepCounters {
            bytes_verified: counters.bytes_verified.wrapping_add(content.len() as usize),
            files_searched: counters.files_searched.wrapping_add(1),
            ..counters
        };
        let scan = FileScan {
            counters: read,
            lines: Set::empty(),
            matches: Seq::empty(),
            done: false,
        };
        lemma_lines_are_counted(scan, file, content, ranges, ranges.len() as int, limits);
        lemma_ranges_keep_counts(scan, file, content, ranges, ranges.len() as int, limits);
    }
}

/// What a file gives is put behind what came before it.
pub proof fn lemma_matches_are_gathered(
    scan: ScanView,
    file: PathKey,
    content: Option<Seq<u8>>,
    ranges: Seq<(usize, usize)>,
)
    ensures
        ({
            let outcome = file_scanned(scan.counters, file, content, ranges, scan.limits);
            let next = fed(scan, outcome);
            &&& next.matches == scan.matches + outcome.matches
            &&& next.counters.total_matches == outcome.counters.total_matches
            &&& next.counters.files_searched == outcome.counters.files_searched
            &&& next.counters.files_with_matches == outcome.counters.files_with_matches
            &&& next.counters.truncated == outcome.counters.truncated
            &&& outcome.counters.engine_capped ==> next.counters.engine_capped
            &&& next.claims == scan.claims && next.file_limit == scan.file_limit && next.limits
                == scan.limits
            &&& next.done && !scan.done ==> next.counters.truncated && next.counters.engine_capped
        }),
{
}

/// A result gives the matches of the scan, each once, in order of the time that the index knows for
/// their files, and the counts of the scan as they are.
pub proof fn lemma_results_tell_what_was_found(
    view: SnapshotView,
    scan: ScanView,
    fully_degraded: bool,
    result: GrepResult,
) -> (order: Seq<usize>)
    requires
        result.reports(view, scan, fully_degraded),
    ensures
        is_rearrangement(order, scan.matches.len()),
        result.matches@.len() == scan.matches.len(),
        forall|i: int|
            0 <= i < order.len() ==> #[trigger] result.matches@[i]@ == scan.matches[order[i] as int],
        forall|i: int, j: int|
            #![trigger order[i], order[j]]
            0 <= i < j < order.len() ==> match_may_come_first(
                view.project_root,
                scan.matches[order[i] as int],
                known_time(view, scan.matches[order[i] as int].file),
                scan.matches[order[j] as int],
                known_time(view, scan.matches[order[j] as int].file),
            ),
        result.total_matches == scan.counters.total_matches,
        result.files_searched == scan.counters.files_searched,
        result.files_with_matches == scan.counters.files_with_matches,
        result.truncated == scan.counters.truncated,
        result.engine_capped == scan.counters.engine_capped,
        result.fully_degraded == fully_degraded,
        !result.walk_truncated,
        result.index_status == IndexStatus::Ready <==> view.ready,
        result.index_status == IndexStatus::Building <==> !view.ready,
{
    let times = known_times(view, scan.matches);
    let given = match_views(result.matches@);
    let order = lemma_matches_are_ordered(view.project_root, scan.matches, times, given);
    assert forall|i: int| 0 <= i < order.len() implies #[trigger] result.matches@[i]@
        == scan.matches[order[i] as int] by {
        assert(given[i] == result.matches@[i]@);
    }
    assert forall|i: int, j: int|
        #![trigger order[i], order[j]]
        0 <= i < j < order.len() implies match_may_come_first(
        view.project_root,
        scan.matches[order[i] as int],
        known_time(view, scan.matches[order[i] as int].file),
        scan.matches[order[j] as int],
        known_time(view, scan.matches[order[j] as int].file),
    ) by {
        assert(times[order[i] as int] == known_time(view, scan.matches[order[i] as int].file));
        assert(times[order[j] as int] == known_time(view, scan.matches[order[j] as int].file));
    }
    order
}

/// The time that the index knows for a path is that of the file which the path leads to.
pub proof fn lemma_known_times_are_those_of_the_files(view: SnapshotView, path: PathKey)
    ensures
        view.ids.contains_key(path) && view.ids[path] < view.files.len() ==> known_time(view, path)
            == Some(view.files[view.ids[path] as int].modified),
        !view.ids.contains_key(path) ==> known_time(view, path) == None::<Timestamp>,
{
}

} // verus!
