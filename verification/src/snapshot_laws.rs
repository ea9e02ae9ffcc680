//! Laws of snapshots: an answer depends on what the snapshot holds and on what is asked, and on
//! nothing else. A snapshot that was taken before a change answers after it as it did before.

use crate::filters::filters_follow;
use crate::filters::globs_error;
use crate::filters::globs_of;
use crate::filters::PathFilters;
use crate::grep::match_views;
use crate::ingest::path_views;
use crate::order::lemma_ascending_lists_are_determined;
use crate::order::strictly_ascending;
use crate::outside::glob_error;
use crate::outside::no_backslash;
use crate::outside::no_backslashes;
use crate::path::PathKey;
use crate::postings::PostingReads;
use crate::query::grep_pattern_runs;
use crate::query::lists_group;
use crate::query::merges_runs;
use crate::query::useful_groups;
use crate::query::CompiledPattern;
use crate::query::QueryRuns;
use crate::query::RegexQuery;
use crate::ranking::file_keys;
use crate::ranking::lemma_sorting_is_determined;
use crate::ranking::match_keys;
use crate::search::glob_flags;
use crate::search::glob_slots;
use crate::search::globs;
use crate::search::globs_with;
use crate::search::grep_finds;
use crate::search::known_times;
use crate::search::scanned;
use crate::search::search_of;
use crate::search::searches;
use crate::search::slot_paths;
use crate::search::slot_times;
use crate::search::GlobResult;
use crate::search::GrepResult;
use crate::snapshot::group_filter;
use crate::snapshot::SearchIndexSnapshot;
use crate::snapshot::SnapshotView;
use crate::trigram::PostingFilter;
use vstd::prelude::*;

verus! {

/// Two calls with the same query come to the same candidates.
pub proof fn lemma_candidates_are_determined(
    view: SnapshotView,
    reads: PostingReads,
    query: RegexQuery,
    left: Seq<u32>,
    right: Seq<u32>,
)
    requires
        strictly_ascending(left),
        forall|id: u32| #[trigger] left.contains(id) <==> view.is_candidate(reads, query, id),
        strictly_ascending(right),
        forall|id: u32| #[trigger] right.contains(id) <==> view.is_candidate(reads, query, id),
    ensures
        left == right,
{
    assert forall|id: u32| left.contains(id) <==> right.contains(id) by {
        assert(left.contains(id) <==> view.is_candidate(reads, query, id));
        assert(right.contains(id) <==> view.is_candidate(reads, query, id));
    }
    lemma_ascending_lists_are_determined(left, right);
}

/// Where every file that counts has a path that leads to it, a file counts if and only if a path that
/// is not empty leads to it, and a query that asks for nothing has them all as candidates.
pub proof fn lemma_all_files_are_reached(
    snapshot: SearchIndexSnapshot,
    reads: PostingReads,
    query: RegexQuery,
)
    requires
        snapshot.well_formed(),
        snapshot@.all_listed(),
        query.is_unrestricted(),
    ensures
        forall|id: u32| #[trigger]
            snapshot@.active(id) <==> snapshot@.listed(id)
                && snapshot@.files[id as int].path.len() > 0,
        forall|path: PathKey| #[trigger]
            snapshot@.ids.contains_key(path) && path.len() > 0 ==> snapshot@.active(
                snapshot@.ids[path],
            ),
        forall|id: u32| #[trigger]
            snapshot@.is_candidate(reads, query, id) <==> snapshot@.active(id),
{
    let view = snapshot@;
    assert(view.files.len() == snapshot.files@.len());
    assert forall|id: u32| #[trigger] view.active(id) <==> view.listed(id)
        && view.files[id as int].path.len() > 0 by {
        if view.listed(id) {
            let path = choose|p: PathKey| #[trigger] view.ids.contains_key(p) && view.ids[p] == id;
            assert(snapshot.path_to_id@.contains_key(path));
        }
    }
    assert forall|path: PathKey| #[trigger]
        view.ids.contains_key(path) && path.len() > 0 implies view.active(view.ids[path]) by {
        assert(snapshot.path_to_id@.contains_key(path));
        assert(snapshot.files@[view.ids[path] as int]@ == view.files[view.ids[path] as int]);
    }
}

/// Two calls with the same trigram come to the same files.
pub proof fn lemma_posting_files_are_determined(
    view: SnapshotView,
    reads: PostingReads,
    trigram: u32,
    filter: Option<PostingFilter>,
    left: Seq<u32>,
    right: Seq<u32>,
)
    requires
        strictly_ascending(left),
        forall|id: u32| #[trigger]
            left.contains(id) <==> view.has_posting(reads, trigram, filter, id),
        strictly_ascending(right),
        forall|id: u32| #[trigger]
            right.contains(id) <==> view.has_posting(reads, trigram, filter, id),
    ensures
        left == right,
{
    assert forall|id: u32| left.contains(id) <==> right.contains(id) by {
        assert(left.contains(id) <==> view.has_posting(reads, trigram, filter, id));
        assert(right.contains(id) <==> view.has_posting(reads, trigram, filter, id));
    }
    lemma_ascending_lists_are_determined(left, right);
}

/// Two globs with the same filters list the same files in the same order.
pub proof fn lemma_globs_are_determined(
    view: SnapshotView,
    filters: PathFilters,
    search_root: PathKey,
    sort_by_mtime: bool,
    left: GlobResult,
    right: GlobResult,
)
    requires
        globs_with(view, filters, search_root, sort_by_mtime, left),
        globs_with(view, filters, search_root, sort_by_mtime, right),
    ensures
        path_views(left.paths@) == path_views(right.paths@),
        left.scope_has_files == right.scope_has_files,
        left.entries_visited == right.entries_visited,
{
    let a = choose|accepted: Seq<bool>| #[trigger]
        glob_flags(view, filters, accepted) && left.lists(
            view,
            search_root,
            accepted,
            sort_by_mtime,
        );
    let b = choose|accepted: Seq<bool>| #[trigger]
        glob_flags(view, filters, accepted) && right.lists(
            view,
            search_root,
            accepted,
            sort_by_mtime,
        );
    assert(a =~= b);
    if sort_by_mtime {
        let slots = glob_slots(view, search_root, a, view.files.len() as int);
        let paths = slot_paths(view, slots);
        lemma_sorting_is_determined(
            paths,
            path_views(left.paths@),
            path_views(right.paths@),
            file_keys(paths, slot_times(view, slots)),
        );
    }
}

/// Filters of the same globs, none with a backslash, list the same files in the same order, however
/// often they were put together.
pub proof fn lemma_globs_of_the_same_texts_agree(
    view: SnapshotView,
    first: PathFilters,
    second: PathFilters,
    search_root: PathKey,
    sort_by_mtime: bool,
    left: GlobResult,
    right: GlobResult,
)
    requires
        first.is_portable(),
        globs_of(first.includes) == globs_of(second.includes),
        globs_of(first.excludes) == globs_of(second.excludes),
        globs_with(view, first, search_root, sort_by_mtime, left),
        globs_with(view, second, search_root, sort_by_mtime, right),
    ensures
        path_views(left.paths@) == path_views(right.paths@),
        left.scope_has_files == right.scope_has_files,
        left.entries_visited == right.entries_visited,
{
    let accepted = choose|accepted: Seq<bool>| #[trigger]
        glob_flags(view, second, accepted) && right.lists(
            view,
            search_root,
            accepted,
            sort_by_mtime,
        );
    assert(glob_flags(view, first, accepted)) by {
        assert forall|i: int| 0 <= i < accepted.len() implies #[trigger] accepted[i]
            == first.accepts(view.project_root, view.files[i].path) by {
            assert(accepted[i] == second.accepts(view.project_root, view.files[i].path));
        }
    }
    lemma_globs_are_determined(view, first, search_root, sort_by_mtime, left, right);
}

/// A glob could not be used: nothing is listed, and nothing was looked at.
pub open spec fn lists_nothing(result: GlobResult) -> bool {
    result.paths@.len() == 0 && !result.scope_has_files && result.entries_visited == 0
}

/// Two calls with the same glob, which holds no backslash, list the same files in the same order,
/// wherever the glob can be used in both; a call in which it cannot be used lists nothing, and a text
/// that is no glob can be used in none. Whether a glob can be used besides rests on how much memory it
/// takes, of which nothing is said.
pub proof fn lemma_calls_of_a_glob_agree(
    view: SnapshotView,
    pattern: Seq<char>,
    search_root: PathKey,
    sort_by_mtime: bool,
    left: GlobResult,
    right: GlobResult,
)
    requires
        no_backslash(pattern),
        globs(view, pattern, search_root, sort_by_mtime, left),
        globs(view, pattern, search_root, sort_by_mtime, right),
    ensures
        lists_nothing(left) || lists_nothing(right) || {
            &&& path_views(left.paths@) == path_views(right.paths@)
            &&& left.scope_has_files == right.scope_has_files
            &&& left.entries_visited == right.entries_visited
        },
        glob_error(pattern) is Some ==> lists_nothing(left) && lists_nothing(right),
{
    let patterns = seq![pattern];
    let none = Seq::<Seq<char>>::empty();
    let first = choose|built: Result<PathFilters, String>| #[trigger]
        filters_follow(patterns, none, built) && match built {
            Ok(filters) => globs_with(view, filters, search_root, sort_by_mtime, left),
            Err(_) => lists_nothing(left),
        };
    let second = choose|built: Result<PathFilters, String>| #[trigger]
        filters_follow(patterns, none, built) && match built {
            Ok(filters) => globs_with(view, filters, search_root, sort_by_mtime, right),
            Err(_) => lists_nothing(right),
        };
    assert(no_backslashes(patterns));
    assert(globs_error(patterns, 0) is None);
    assert(globs_error(patterns, 1) == glob_error(pattern));
    if first is Ok && second is Ok {
        lemma_globs_of_the_same_texts_agree(
            view,
            first->Ok_0,
            second->Ok_0,
            search_root,
            sort_by_mtime,
            left,
            right,
        );
    }
}

proof fn lemma_filters_are_determined(
    left: Map<u32, PostingFilter>,
    right: Map<u32, PostingFilter>,
    runs: Seq<Seq<u8>>,
)
    requires
        merges_runs(left, runs),
        merges_runs(right, runs),
    ensures
        left == right,
{
    assert forall|t: u32| left.dom().contains(t) == right.dom().contains(t) by {
        assert(left.contains_key(t) <==> right.contains_key(t));
    }
    assert forall|t: u32| left.contains_key(t) implies left[t] == #[trigger] right[t] by {
        assert(right.contains_key(t));
    }
    assert(left =~= right);
}

/// Two queries that ask for the same ask the same of every file.
pub(crate) proof fn lemma_queries_are_determined(
    view: SnapshotView,
    reads: PostingReads,
    runs: QueryRuns,
    left: RegexQuery,
    right: RegexQuery,
    id: u32,
)
    requires
        left.asks_for(runs),
        right.asks_for(runs),
    ensures
        left.is_unrestricted() == right.is_unrestricted(),
        view.is_candidate(reads, left, id) == view.is_candidate(reads, right, id),
{
    let groups = useful_groups(runs.or_groups);
    lemma_filters_are_determined(left.and_filters@, right.and_filters@, runs.and_runs);
    assert forall|g: int| 0 <= g < groups.len() implies view.has_one_of(reads, left, g, id)
        == #[trigger] view.has_one_of(reads, right, g, id) by {
        let (a, b) = (left.or_groups@[g]@, right.or_groups@[g]@);
        assert(lists_group(left.or_groups@[g]@, groups[g]));
        assert(lists_group(right.or_groups@[g]@, groups[g]));
        assert forall|t: u32| a.contains(t) <==> b.contains(t) by {}
        lemma_ascending_lists_are_determined(a, b);
        assert(merges_runs(left.or_filters@[g]@, groups[g]));
        assert(merges_runs(right.or_filters@[g]@, groups[g]));
        lemma_filters_are_determined(left.or_filters@[g]@, right.or_filters@[g]@, groups[g]);
        if view.has_one_of(reads, left, g, id) {
            let i = choose|i: int|
                0 <= i < left.or_groups@[g]@.len() && view.has_posting(
                    reads,
                    #[trigger] left.or_groups@[g]@[i],
                    group_filter(left, g, left.or_groups@[g]@[i]),
                    id,
                );
            assert(right.or_groups@[g]@[i] == left.or_groups@[g]@[i]);
        }
        if view.has_one_of(reads, right, g, id) {
            let i = choose|i: int|
                0 <= i < right.or_groups@[g]@.len() && view.has_posting(
                    reads,
                    #[trigger] right.or_groups@[g]@[i],
                    group_filter(right, g, right.or_groups@[g]@[i]),
                    id,
                );
            assert(left.or_groups@[g]@[i] == right.or_groups@[g]@[i]);
        }
    }
    assert(view.has_all(reads, left, id) == view.has_all(reads, right, id));
    assert((forall|g: int|
        0 <= g < left.or_groups@.len() ==> #[trigger] view.has_one_of(reads, left, g, id)) == (
    forall|g: int|
        0 <= g < right.or_groups@.len() ==> #[trigger] view.has_one_of(reads, right, g, id))) by {
        if forall|g: int|
            0 <= g < left.or_groups@.len() ==> #[trigger] view.has_one_of(reads, left, g, id) {
            assert forall|g: int| 0 <= g < right.or_groups@.len() implies #[trigger] view.has_one_of(
                reads,
                right,
                g,
                id,
            ) by {
                assert(view.has_one_of(reads, left, g, id));
            }
        }
        if forall|g: int|
            0 <= g < right.or_groups@.len() ==> #[trigger] view.has_one_of(reads, right, g, id) {
            assert forall|g: int| 0 <= g < left.or_groups@.len() implies #[trigger] view.has_one_of(
                reads,
                left,
                g,
                id,
            ) by {
                assert(view.has_one_of(reads, right, g, id));
            }
        }
    }
}

/// Two searches for the same pattern in the same contents report the same matches in the same order,
/// and the same counts.
pub proof fn lemma_searches_are_determined(
    view: SnapshotView,
    pattern: CompiledPattern,
    reads: PostingReads,
    filters: PathFilters,
    search_root: PathKey,
    excluded: Seq<bool>,
    max_results: usize,
    contents: Map<u32, Vec<u8>>,
    left: GrepResult,
    right: GrepResult,
)
    requires
        grep_finds(
            view,
            pattern,
            reads,
            filters,
            search_root,
            excluded,
            max_results,
            contents,
            left,
        ),
        grep_finds(
            view,
            pattern,
            reads,
            filters,
            search_root,
            excluded,
            max_results,
            contents,
            right,
        ),
    ensures
        match_views(left.matches@) == match_views(right.matches@),
        left.total_matches == right.total_matches,
        left.files_searched == right.files_searched,
        left.files_with_matches == right.files_with_matches,
        left.index_status == right.index_status,
        left.truncated == right.truncated,
        left.fully_degraded == right.fully_degraded,
        left.engine_capped == right.engine_capped,
        left.walk_truncated == right.walk_truncated,
{
    let runs = grep_pattern_runs(pattern);
    let (q, ours) = choose|query: RegexQuery, kept: Seq<u32>|
        {
            &&& query.asks_for(runs)
            &&& #[trigger] searches(view, query, reads, filters, search_root, excluded, kept)
            &&& left.reports(
                view,
                scanned(view, pattern, kept, contents, max_results),
                query.is_unrestricted(),
            )
        };
    let (r, theirs) = choose|query: RegexQuery, kept: Seq<u32>|
        {
            &&& query.asks_for(runs)
            &&& #[trigger] searches(view, query, reads, filters, search_root, excluded, kept)
            &&& right.reports(
                view,
                scanned(view, pattern, kept, contents, max_results),
                query.is_unrestricted(),
            )
        };
    lemma_queries_are_determined(view, reads, runs, q, r, 0);
    assert(ours == theirs) by {
        assert forall|id: u32| view.is_candidate(reads, q, id) == #[trigger] view.is_candidate(
            reads,
            r,
            id,
        ) by {
            lemma_queries_are_determined(view, reads, runs, q, r, id);
        }
        let (ids, out, accepted) = choose|ids: Seq<u32>, out: Seq<bool>, accepted: Seq<bool>|
            search_of(view, q, reads, filters, search_root, excluded, ours, ids, out, accepted);
        let (ids2, out2, accepted2) = choose|ids: Seq<u32>, out: Seq<bool>, accepted: Seq<bool>|
            search_of(view, r, reads, filters, search_root, excluded, theirs, ids, out, accepted);
        assert forall|id: u32| ids.contains(id) <==> ids2.contains(id) by {
            assert(ids.contains(id) <==> view.is_candidate(reads, q, id));
            assert(ids2.contains(id) <==> view.is_candidate(reads, r, id));
        }
        lemma_ascending_lists_are_determined(ids, ids2);
        assert(out =~= out2);
        assert(accepted =~= accepted2);
    }
    let scan = scanned(view, pattern, ours, contents, max_results);
    lemma_sorting_is_determined(
        scan.matches,
        match_views(left.matches@),
        match_views(right.matches@),
        match_keys(view.project_root, scan.matches, known_times(view, scan.matches)),
    );
}

} // verus!
