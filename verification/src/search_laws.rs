//! Laws of searching as a whole: the index answers as reading every file would.

use crate::completeness::describes;
use crate::completeness::groups_visible;
use crate::completeness::holds_runs;
use crate::completeness::lemma_holders_are_candidates;
use crate::completeness::lemma_holds_runs_in_whole;
use crate::completeness::lemma_matches_hold_runs;
use crate::completeness::lemma_no_alternatives_no_groups;
use crate::completeness::list_describes;
use crate::completeness::may_match;
use crate::completeness::occurs;
use crate::completeness::without_alternatives;
use crate::filters::PathFilters;
use crate::grep::file_places;
use crate::grep::literal_ranges;
use crate::grep::lowercased;
use crate::grep::match_views;
use crate::grep::places;
use crate::grep::MatchView;
use crate::grep_laws::all_matches;
use crate::grep_laws::files_found;
use crate::grep_laws::lemma_uncapped_search_is_complete;
use crate::grep_laws::lines_found;
use crate::grep_laws::lines_in;
use crate::grep_laws::matches_in;
use crate::grep_laws::texts_found;
use crate::order::lemma_ascending_lists_are_determined;
use crate::order::strictly_ascending;
use crate::outside::occurs_at;
use crate::path::PathKey;
use crate::postings::PostingReads;
use crate::query::grep_pattern_runs;
use crate::query::query_runs;
use crate::query::CompiledPattern;
use crate::query::LiteralSearch;
use crate::query::RegexQuery;
use crate::query::RegexShape;
use crate::ranking::lemma_sorting_keeps_results;
use crate::ranking::match_keys;
use crate::search::all_places;
use crate::search::candidate_path;
use crate::search::content_of;
use crate::search::contents_of;
use crate::search::grep_finds;
use crate::search::in_scope;
use crate::search::known_times;
use crate::search::paths_of;
use crate::search::scanned;
use crate::search::search_of;
use crate::search::searches;
use crate::search::selected;
use crate::search::slot_excluded;
use crate::search::GrepResult;
use crate::snapshot::SnapshotView;
use crate::snapshot_laws::lemma_queries_are_determined;
use crate::trigram::filter_of;
use crate::trigram::has_trigram;
use crate::trigram::lowercase;
use crate::trigram::next_at;
use crate::trigram::next_mask_upto;
use crate::trigram::trigram_at;
use crate::trigram::trigram_positions;
use vstd::prelude::*;

verus! {

// ---------------------------------------------------------------------------------------------
// Reading every file
// ---------------------------------------------------------------------------------------------

/// The file is one to look at: it counts, it stands in scope, and neither the caller nor the
/// filters leave it out.
pub open spec fn looked_at(
    view: SnapshotView,
    filters: PathFilters,
    search_root: PathKey,
    excluded: Seq<bool>,
    id: u32,
) -> bool {
    &&& view.active(id)
    &&& !slot_excluded(excluded, id)
    &&& in_scope(view, search_root, id as int)
    &&& filters.accepts(view.project_root, candidate_path(view, id))
}

/// The files to look at among the first `count` slots.
pub open spec fn files_upto(
    view: SnapshotView,
    filters: PathFilters,
    search_root: PathKey,
    excluded: Seq<bool>,
    count: int,
) -> Seq<u32>
    decreases count,
{
    if count <= 0 {
        Seq::empty()
    } else {
        let earlier = files_upto(view, filters, search_root, excluded, count - 1);
        let id = (count - 1) as u32;
        if looked_at(view, filters, search_root, excluded, id) {
            earlier.push(id)
        } else {
            earlier
        }
    }
}

/// All files to look at.
pub open spec fn every_file(
    view: SnapshotView,
    filters: PathFilters,
    search_root: PathKey,
    excluded: Seq<bool>,
) -> Seq<u32> {
    files_upto(view, filters, search_root, excluded, view.files.len() as int)
}

/// How many lines of some files have a match.
pub open spec fn lines_with(
    pattern: CompiledPattern,
    contents: Map<u32, Vec<u8>>,
    ids: Seq<u32>,
) -> int {
    lines_found(
        contents_of(contents, ids),
        all_places(pattern, contents_of(contents, ids)),
        ids.len() as int,
    )
}

/// The first match of each line of some files.
pub open spec fn matches_with(
    view: SnapshotView,
    pattern: CompiledPattern,
    contents: Map<u32, Vec<u8>>,
    ids: Seq<u32>,
) -> Seq<MatchView> {
    all_matches(
        paths_of(view, ids),
        contents_of(contents, ids),
        all_places(pattern, contents_of(contents, ids)),
        ids.len() as int,
    )
}

/// How many of some files are text.
pub open spec fn texts_among(contents: Map<u32, Vec<u8>>, ids: Seq<u32>) -> int {
    texts_found(contents_of(contents, ids), ids.len() as int)
}

/// How many of some files have a match.
pub open spec fn files_with(
    pattern: CompiledPattern,
    contents: Map<u32, Vec<u8>>,
    ids: Seq<u32>,
) -> int {
    files_found(
        contents_of(contents, ids),
        all_places(pattern, contents_of(contents, ids)),
        ids.len() as int,
    )
}

/// The files to look at that may hold a match of the query.
pub open spec fn candidates_among(
    view: SnapshotView,
    reads: PostingReads,
    query: RegexQuery,
    ids: Seq<u32>,
) -> Seq<u32> {
    those(ids, |id: u32| view.is_candidate(reads, query, id))
}

/// The index is up to date with what the files hold: each file that counts has a path that leads to
/// it, and is known by its content or kept without postings.
pub open spec fn up_to_date(
    view: SnapshotView,
    reads: PostingReads,
    contents: Map<u32, Vec<u8>>,
) -> bool {
    forall|id: u32| #[trigger]
        view.active(id) ==> view.listed(id) && (view.unindexed.contains(id)
            || !contents.contains_key(id) || describes(view, reads, id, contents[id]@))
}

// ---------------------------------------------------------------------------------------------
// Case
// ---------------------------------------------------------------------------------------------

proof fn lemma_mask_of_lowercased(content: Seq<u8>, trigram: u32, count: int)
    requires
        0 <= count <= trigram_positions(content),
    ensures
        next_mask_upto(lowercased(content), trigram, true, count) == next_mask_upto(
            content,
            trigram,
            true,
            count,
        ),
    decreases count,
{
    if count > 0 {
        lemma_mask_of_lowercased(content, trigram, count - 1);
        let low = lowercased(content);
        let p = count - 1;
        assert(trigram_at(low, p) == trigram_at(content, p));
        assert(lowercase(next_at(low, p)) == lowercase(next_at(content, p)));
        assert(next_at(low, p) == 0 <==> next_at(content, p) == 0);
    }
}

/// Whoever knows a file by its content knows it by the content in lower case.
proof fn lemma_described_in_lowercase(
    view: SnapshotView,
    reads: PostingReads,
    id: u32,
    content: Seq<u8>,
)
    requires
        describes(view, reads, id, content),
    ensures
        describes(view, reads, id, lowercased(content)),
{
    let low = lowercased(content);
    assert forall|t: u32| #[trigger] has_trigram(low, t) implies list_describes(
        reads.base_list(view.base, t),
        id,
        t,
        low,
    ) || list_describes(view.list(t), id, t, low) by {
        let p = choose|p: int|
            0 <= p < trigram_positions(low) && #[trigger] trigram_at(low, p) == t;
        assert(trigram_at(content, p) == t);
        assert(has_trigram(content, t));
        lemma_mask_of_lowercased(content, t, trigram_positions(content));
        assert(filter_of(low, t, true).next_mask == filter_of(content, t, true).next_mask);
        if list_describes(reads.base_list(view.base, t), id, t, content) {
            let list = reads.base_list(view.base, t);
            let i = choose|i: int|
                0 <= i < list.len() && (#[trigger] list[i]).file_id == id && list[i].next_mask
                    == filter_of(content, t, true).next_mask;
            assert(list[i].file_id == id);
        } else {
            let list = view.list(t);
            let i = choose|i: int|
                0 <= i < list.len() && (#[trigger] list[i]).file_id == id && list[i].next_mask
                    == filter_of(content, t, true).next_mask;
            assert(list[i].file_id == id);
        }
    }
}

// ---------------------------------------------------------------------------------------------
// Files with a place are candidates
// ---------------------------------------------------------------------------------------------

proof fn lemma_places_are_occurrences(haystack: Seq<u8>, needle: Seq<u8>, from: int)
    requires
        literal_ranges(haystack, needle, from).len() > 0,
    ensures
        occurs(haystack, needle),
    decreases haystack.len() - from,
{
    if 0 <= from < haystack.len() && !occurs_at(haystack, needle, from) {
        lemma_places_are_occurrences(haystack, needle, from + 1);
    }
}

/// Where a pattern matches in a text, the text holds the runs that the index asks for, in its own case
/// or in lower case, and in each group of alternatives one of them gets past the group's filter.
pub open spec fn shows_runs(pattern: CompiledPattern, content: Seq<u8>) -> bool {
    let runs = grep_pattern_runs(pattern);
    places(pattern, content).len() > 0 ==> {
        ||| holds_runs(content, runs) && groups_visible(runs.or_groups, content)
        ||| holds_runs(lowercased(content), runs) && groups_visible(
            runs.or_groups,
            lowercased(content),
        )
    }
}

/// A text in which a literal stands holds what the index asks for.
pub proof fn lemma_literals_show_runs(literal: LiteralSearch, content: Seq<u8>)
    ensures
        shows_runs(CompiledPattern::Literal(literal), content),
{
    let haystack = if literal.case_insensitive_ascii {
        lowercased(content)
    } else {
        content
    };
    if places(CompiledPattern::Literal(literal), content).len() > 0 {
        lemma_places_are_occurrences(haystack, literal.needle@, 0);
    }
}

/// A text in which a regular expression without alternatives matches holds what the index asks for,
/// provided that the place is a match of the expression's syntax tree.
pub proof fn lemma_plain_regexes_show_runs(
    pattern: CompiledPattern,
    shape: RegexShape,
    content: Seq<u8>,
    from: int,
    to: int,
)
    requires
        grep_pattern_runs(pattern) == query_runs(shape),
        without_alternatives(shape),
        0 <= from <= to <= content.len(),
        may_match(shape, content.subrange(from, to)),
    ensures
        shows_runs(pattern, content),
{
    lemma_matches_hold_runs(shape, content.subrange(from, to));
    lemma_holds_runs_in_whole(content, from, to, query_runs(shape));
    lemma_no_alternatives_no_groups(shape);
}

/// A file in which the pattern matches is a candidate of the pattern's query.
pub proof fn lemma_match_holders_are_candidates(
    view: SnapshotView,
    reads: PostingReads,
    query: RegexQuery,
    pattern: CompiledPattern,
    contents: Map<u32, Vec<u8>>,
    id: u32,
)
    requires
        up_to_date(view, reads, contents),
        query.asks_for(grep_pattern_runs(pattern)),
        view.active(id),
        contents.contains_key(id) ==> shows_runs(pattern, contents[id]@),
        file_places(pattern, content_of(contents, id)).len() > 0,
    ensures
        view.is_candidate(reads, query, id),
{
    let runs = grep_pattern_runs(pattern);
    let content = contents[id]@;
    if !view.unindexed.contains(id) {
        lemma_described_in_lowercase(view, reads, id, content);
        if holds_runs(content, runs) && groups_visible(runs.or_groups, content) {
            lemma_holders_are_candidates(view, reads, query, runs, id, content);
        } else {
            lemma_holders_are_candidates(view, reads, query, runs, id, lowercased(content));
        }
    }
}

// ---------------------------------------------------------------------------------------------
// What the index leaves out holds nothing
// ---------------------------------------------------------------------------------------------

proof fn lemma_files_upto(
    view: SnapshotView,
    filters: PathFilters,
    search_root: PathKey,
    excluded: Seq<bool>,
    count: int,
)
    requires
        0 <= count <= view.files.len(),
        count <= u32::MAX + 1,
    ensures
        strictly_ascending(files_upto(view, filters, search_root, excluded, count)),
        files_upto(view, filters, search_root, excluded, count).len() <= count,
        forall|id: u32| #[trigger]
            files_upto(view, filters, search_root, excluded, count).contains(id) <==> id < count
                && looked_at(view, filters, search_root, excluded, id),
    decreases count,
{
    if count > 0 {
        lemma_files_upto(view, filters, search_root, excluded, count - 1);
        let earlier = files_upto(view, filters, search_root, excluded, count - 1);
        let all = files_upto(view, filters, search_root, excluded, count);
        let last = (count - 1) as u32;
        assert forall|i: int| 0 <= i < earlier.len() implies #[trigger] earlier[i] < last by {
            assert(earlier.contains(earlier[i]));
        }
        assert forall|id: u32| #[trigger] all.contains(id) <==> id < count && looked_at(
            view,
            filters,
            search_root,
            excluded,
            id,
        ) by {
            assert(earlier.contains(id) <==> id < count - 1 && looked_at(
                view,
                filters,
                search_root,
                excluded,
                id,
            ));
            if earlier.contains(id) {
                let k = earlier.index_of(id);
                assert(all[k] == id);
            }
            if all.contains(id) && !earlier.contains(id) {
                let k = all.index_of(id);
                if k < earlier.len() {
                    assert(earlier[k] == id);
                }
            }
            if all.len() > earlier.len() {
                assert(all[earlier.len() as int] == last);
            }
        }
    }
}

/// The ids of `ids` that meet a test.
pub open spec fn those(ids: Seq<u32>, test: spec_fn(u32) -> bool) -> Seq<u32>
    decreases ids.len(),
{
    if ids.len() == 0 {
        Seq::empty()
    } else {
        let earlier = those(ids.drop_last(), test);
        if test(ids.last()) {
            earlier.push(ids.last())
        } else {
            earlier
        }
    }
}

proof fn lemma_those(ids: Seq<u32>, test: spec_fn(u32) -> bool)
    requires
        strictly_ascending(ids),
    ensures
        strictly_ascending(those(ids, test)),
        those(ids, test).len() <= ids.len(),
        forall|id: u32| #[trigger] those(ids, test).contains(id) <==> ids.contains(id) && test(id),
    decreases ids.len(),
{
    if ids.len() > 0 {
        let front = ids.drop_last();
        let last = ids.last();
        lemma_those(front, test);
        let earlier = those(front, test);
        let all = those(ids, test);
        assert forall|i: int| 0 <= i < earlier.len() implies #[trigger] earlier[i] < last by {
            assert(earlier.contains(earlier[i]));
            let k = front.index_of(earlier[i]);
            assert(ids[k] < ids[ids.len() - 1]);
        }
        assert forall|id: u32| #[trigger] all.contains(id) <==> ids.contains(id) && test(id) by {
            assert(earlier.contains(id) <==> front.contains(id) && test(id));
            if earlier.contains(id) {
                let k = earlier.index_of(id);
                assert(all[k] == id);
                let m = front.index_of(id);
                assert(ids[m] == id);
            }
            if ids.contains(id) && id != last {
                let m = ids.index_of(id);
                assert(front[m] == id);
            }
            if all.len() > earlier.len() {
                assert(all[earlier.len() as int] == last);
            }
            assert(ids[ids.len() - 1] == last);
            if all.contains(id) && !earlier.contains(id) {
                let k = all.index_of(id);
                if k < earlier.len() {
                    assert(earlier[k] == id);
                }
            }
        }
    }
}

proof fn lemma_lines_of_front(
    contents: Seq<Option<Seq<u8>>>,
    ranges: Seq<Seq<(usize, usize)>>,
    other_contents: Seq<Option<Seq<u8>>>,
    other_ranges: Seq<Seq<(usize, usize)>>,
    count: int,
)
    requires
        forall|i: int| 0 <= i < count ==> #[trigger] contents[i] == other_contents[i],
        forall|i: int| 0 <= i < count ==> #[trigger] ranges[i] == other_ranges[i],
    ensures
        lines_found(contents, ranges, count) == lines_found(other_contents, other_ranges, count),
        files_found(contents, ranges, count) == files_found(other_contents, other_ranges, count),
    decreases count,
{
    if count > 0 {
        lemma_lines_of_front(contents, ranges, other_contents, other_ranges, count - 1);
        assert(contents[count - 1] == other_contents[count - 1]);
        assert(ranges[count - 1] == other_ranges[count - 1]);
    }
}

proof fn lemma_matches_of_front(
    files: Seq<PathKey>,
    contents: Seq<Option<Seq<u8>>>,
    ranges: Seq<Seq<(usize, usize)>>,
    other_files: Seq<PathKey>,
    other_contents: Seq<Option<Seq<u8>>>,
    other_ranges: Seq<Seq<(usize, usize)>>,
    count: int,
)
    requires
        forall|i: int| 0 <= i < count ==> #[trigger] files[i] == other_files[i],
        forall|i: int| 0 <= i < count ==> #[trigger] contents[i] == other_contents[i],
        forall|i: int| 0 <= i < count ==> #[trigger] ranges[i] == other_ranges[i],
    ensures
        all_matches(files, contents, ranges, count) == all_matches(
            other_files,
            other_contents,
            other_ranges,
            count,
        ),
    decreases count,
{
    if count > 0 {
        lemma_matches_of_front(
            files,
            contents,
            ranges,
            other_files,
            other_contents,
            other_ranges,
            count - 1,
        );
        assert(files[count - 1] == other_files[count - 1]);
        assert(contents[count - 1] == other_contents[count - 1]);
        assert(ranges[count - 1] == other_ranges[count - 1]);
    }
}

/// One more file.
proof fn lemma_one_more_file(
    view: SnapshotView,
    pattern: CompiledPattern,
    contents: Map<u32, Vec<u8>>,
    ids: Seq<u32>,
)
    requires
        ids.len() > 0,
    ensures
        lines_with(pattern, contents, ids) == lines_with(pattern, contents, ids.drop_last())
            + lines_in(
            content_of(contents, ids.last()),
            file_places(pattern, content_of(contents, ids.last())),
        ),
        files_with(pattern, contents, ids) == files_with(pattern, contents, ids.drop_last()) + (
        if lines_in(
            content_of(contents, ids.last()),
            file_places(pattern, content_of(contents, ids.last())),
        ) > 0 {
            1int
        } else {
            0
        }),
        matches_with(view, pattern, contents, ids) == matches_with(
            view,
            pattern,
            contents,
            ids.drop_last(),
        ) + matches_in(
            candidate_path(view, ids.last()),
            content_of(contents, ids.last()),
            file_places(pattern, content_of(contents, ids.last())),
        ),
{
    let front = ids.drop_last();
    lemma_lines_of_front(
        contents_of(contents, ids),
        all_places(pattern, contents_of(contents, ids)),
        contents_of(contents, front),
        all_places(pattern, contents_of(contents, front)),
        front.len() as int,
    );
    lemma_matches_of_front(
        paths_of(view, ids),
        contents_of(contents, ids),
        all_places(pattern, contents_of(contents, ids)),
        paths_of(view, front),
        contents_of(contents, front),
        all_places(pattern, contents_of(contents, front)),
        front.len() as int,
    );
}

/// Files without a place change nothing.
proof fn lemma_empty_files_change_nothing(
    view: SnapshotView,
    pattern: CompiledPattern,
    contents: Map<u32, Vec<u8>>,
    ids: Seq<u32>,
    test: spec_fn(u32) -> bool,
)
    requires
        forall|i: int|
            0 <= i < ids.len() && !test(#[trigger] ids[i]) ==> file_places(
                pattern,
                content_of(contents, ids[i]),
            ).len() == 0,
    ensures
        lines_with(pattern, contents, those(ids, test)) == lines_with(pattern, contents, ids),
        files_with(pattern, contents, those(ids, test)) == files_with(pattern, contents, ids),
        matches_with(view, pattern, contents, those(ids, test)) == matches_with(
            view,
            pattern,
            contents,
            ids,
        ),
    decreases ids.len(),
{
    if ids.len() > 0 {
        let front = ids.drop_last();
        let last = ids.last();
        assert forall|i: int| 0 <= i < front.len() && !test(
            #[trigger] front[i],
        ) implies file_places(pattern, content_of(contents, front[i])).len() == 0 by {
            assert(front[i] == ids[i]);
        }
        lemma_empty_files_change_nothing(view, pattern, contents, front, test);
        lemma_one_more_file(view, pattern, contents, ids);
        let kept = those(ids, test);
        if test(last) {
            lemma_one_more_file(view, pattern, contents, kept);
            assert(kept.drop_last() =~= those(front, test));
        } else {
            assert(last == ids[ids.len() - 1]);
            let places = file_places(pattern, content_of(contents, last));
            assert(places.len() == 0);
            let path = candidate_path(view, last);
            assert(matches_in(path, content_of(contents, last), places) =~= Seq::empty());
            assert(matches_with(view, pattern, contents, ids) =~= matches_with(
                view,
                pattern,
                contents,
                front,
            ));
        }
    } else {
        assert(those(ids, test) =~= ids);
    }
}

// ---------------------------------------------------------------------------------------------
// The search
// ---------------------------------------------------------------------------------------------

proof fn lemma_selected(
    view: SnapshotView,
    ids: Seq<u32>,
    root: PathKey,
    excluded: Seq<bool>,
    accepted: Seq<bool>,
    count: int,
)
    requires
        0 <= count <= ids.len(),
        strictly_ascending(ids),
    ensures
        strictly_ascending(selected(view, ids, root, excluded, accepted, count)),
        forall|id: u32| #[trigger]
            selected(view, ids, root, excluded, accepted, count).contains(id) <==> exists|k: int|
                0 <= k < count && #[trigger] ids[k] == id && id < view.files.len() && in_scope(
                    view,
                    root,
                    id as int,
                ) && !excluded[k] && accepted[k],
    decreases count,
{
    if count > 0 {
        lemma_selected(view, ids, root, excluded, accepted, count - 1);
        let earlier = selected(view, ids, root, excluded, accepted, count - 1);
        let all = selected(view, ids, root, excluded, accepted, count);
        let last = ids[count - 1];
        assert forall|i: int| 0 <= i < earlier.len() implies #[trigger] earlier[i] < last by {
            assert(earlier.contains(earlier[i]));
            let k = choose|k: int|
                0 <= k < count - 1 && #[trigger] ids[k] == earlier[i] && earlier[i]
                    < view.files.len() && in_scope(view, root, earlier[i] as int) && !excluded[k]
                    && accepted[k];
            assert(ids[k] < ids[count - 1]);
        }
        assert forall|id: u32| #[trigger] all.contains(id) <==> exists|k: int|
            0 <= k < count && #[trigger] ids[k] == id && id < view.files.len() && in_scope(
                view,
                root,
                id as int,
            ) && !excluded[k] && accepted[k] by {
            if all.len() > earlier.len() {
                assert(all[earlier.len() as int] == last);
            }
            if earlier.contains(id) {
                let k = earlier.index_of(id);
                assert(all[k] == id);
            }
            if all.contains(id) {
                let k = all.index_of(id);
                if k < earlier.len() {
                    assert(earlier[k] == id);
                    assert(earlier.contains(id));
                } else {
                    assert(ids[count - 1] == id);
                }
            }
        }
    }
}

/// Of the files to look at the search reads those that are candidates.
proof fn lemma_search_keeps_candidates(
    view: SnapshotView,
    query: RegexQuery,
    reads: PostingReads,
    filters: PathFilters,
    search_root: PathKey,
    excluded: Seq<bool>,
    kept: Seq<u32>,
)
    requires
        view.files.len() <= u32::MAX + 1,
        searches(view, query, reads, filters, search_root, excluded, kept),
        forall|id: u32| #[trigger] view.is_candidate(reads, query, id) ==> view.active(id),
    ensures
        kept == candidates_among(
            view,
            reads,
            query,
            every_file(view, filters, search_root, excluded),
        ),
        kept.len() <= view.files.len(),
{
    let (ids, left_out, accepted) = choose|
        ids: Seq<u32>,
        left_out: Seq<bool>,
        accepted: Seq<bool>,
    |
        search_of(view, query, reads, filters, search_root, excluded, kept, ids, left_out, accepted);
    let every = every_file(view, filters, search_root, excluded);
    let test = |id: u32| view.is_candidate(reads, query, id);
    lemma_selected(view, ids, search_root, left_out, accepted, ids.len() as int);
    lemma_files_upto(view, filters, search_root, excluded, view.files.len() as int);
    lemma_those(every, test);
    assert forall|id: u32| kept.contains(id) <==> those(every, test).contains(id) by {
        if kept.contains(id) {
            let k = choose|k: int|
                0 <= k < ids.len() && #[trigger] ids[k] == id && id < view.files.len() && in_scope(
                    view,
                    search_root,
                    id as int,
                ) && !left_out[k] && accepted[k];
            assert(ids.contains(ids[k]));
            assert(view.is_candidate(reads, query, id));
            assert(every.contains(id));
        }
        if those(every, test).contains(id) {
            assert(every.contains(id) && test(id));
            assert(ids.contains(id));
            let k = ids.index_of(id);
            assert(accepted[k]);
            assert(!left_out[k]);
            assert(ids[k] == id);
        }
    }
    lemma_ascending_lists_are_determined(kept, those(every, test));
}

proof fn lemma_candidates_count(view: SnapshotView, reads: PostingReads, query: RegexQuery, id: u32)
    requires
        view.is_candidate(reads, query, id),
    ensures
        view.active(id),
{
    if !view.active(id) {
        let t = query.and_trigrams@[0];
        assert(view.has_posting(
            reads,
            t,
            crate::snapshot::filter_for(query.and_filters@, t),
            id,
        ));
    }
}

/// A search through the index finds what reading every file would: where the index is up to date,
/// the pattern's places show the runs that the index asks for, and no more lines match than may be
/// reported, the first match of each line of each file in scope is reported, none is left out, and
/// none is added. All lines and all files with a match are counted. Of the files in scope those count
/// as searched that are text and may hold a match by the runs that the pattern asks for.
pub proof fn lemma_search_finds_what_reading_finds(
    view: SnapshotView,
    pattern: CompiledPattern,
    reads: PostingReads,
    filters: PathFilters,
    search_root: PathKey,
    excluded: Seq<bool>,
    max_results: usize,
    contents: Map<u32, Vec<u8>>,
    result: GrepResult,
)
    requires
        view.files.len() <= u32::MAX + 1,
        view.files.len() <= usize::MAX,
        up_to_date(view, reads, contents),
        forall|id: u32| #[trigger]
            contents.contains_key(id) ==> shows_runs(pattern, contents[id]@),
        lines_with(pattern, contents, every_file(view, filters, search_root, excluded)) <= max_results,
        grep_finds(
            view,
            pattern,
            reads,
            filters,
            search_root,
            excluded,
            max_results,
            contents,
            result,
        ),
    ensures
        match_views(result.matches@).to_multiset() == matches_with(
            view,
            pattern,
            contents,
            every_file(view, filters, search_root, excluded),
        ).to_multiset(),
        result.total_matches == lines_with(
            pattern,
            contents,
            every_file(view, filters, search_root, excluded),
        ),
        result.files_with_matches == files_with(
            pattern,
            contents,
            every_file(view, filters, search_root, excluded),
        ),
        forall|query: RegexQuery| #[trigger]
            query.asks_for(grep_pattern_runs(pattern)) ==> result.files_searched == texts_among(
                contents,
                candidates_among(
                    view,
                    reads,
                    query,
                    every_file(view, filters, search_root, excluded),
                ),
            ),
        !result.truncated,
        !result.engine_capped,
{
    let (query, kept) = choose|query: RegexQuery, kept: Seq<u32>|
        {
            &&& query.asks_for(grep_pattern_runs(pattern))
            &&& #[trigger] searches(view, query, reads, filters, search_root, excluded, kept)
            &&& result.reports(
                view,
                scanned(view, pattern, kept, contents, max_results),
                query.is_unrestricted(),
            )
        };
    let scan = scanned(view, pattern, kept, contents, max_results);
    let every = every_file(view, filters, search_root, excluded);
    let test = |id: u32| view.is_candidate(reads, query, id);
    assert forall|id: u32| #[trigger] view.is_candidate(reads, query, id) implies view.active(
        id,
    ) by {
        lemma_candidates_count(view, reads, query, id);
    }
    lemma_search_keeps_candidates(view, query, reads, filters, search_root, excluded, kept);
    lemma_files_upto(view, filters, search_root, excluded, view.files.len() as int);
    assert forall|i: int| 0 <= i < every.len() && !test(#[trigger] every[i]) implies file_places(
        pattern,
        content_of(contents, every[i]),
    ).len() == 0 by {
        assert(every.contains(every[i]));
        if file_places(pattern, content_of(contents, every[i])).len() > 0 {
            lemma_match_holders_are_candidates(view, reads, query, pattern, contents, every[i]);
        }
    }
    lemma_empty_files_change_nothing(view, pattern, contents, every, test);
    lemma_uncapped_search_is_complete(
        max_results,
        kept.len() as int,
        paths_of(view, kept),
        contents_of(contents, kept),
        all_places(pattern, contents_of(contents, kept)),
        kept.len() as int,
    );
    assert forall|other: RegexQuery| #[trigger]
        other.asks_for(grep_pattern_runs(pattern)) implies candidates_among(
        view,
        reads,
        other,
        every,
    ) == kept by {
        let same = |id: u32| view.is_candidate(reads, other, id);
        assert forall|id: u32| #[trigger] same(id) == test(id) by {
            lemma_queries_are_determined(
                view,
                reads,
                grep_pattern_runs(pattern),
                other,
                query,
                id,
            );
        }
        assert(same =~= test);
    }
    lemma_sorting_keeps_results(
        scan.matches,
        match_views(result.matches@),
        match_keys(view.project_root, scan.matches, known_times(view, scan.matches)),
    );
}

} // verus!
