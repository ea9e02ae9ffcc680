//! Laws of changing the index: what is removed is gone, and other files are left as they were.

use crate::compact::is_pending;
use crate::file_entry::free_slot;
use crate::file_entry::SearchFileMetadata;
use crate::index::after_removal;
use crate::index::files_in_use;
use crate::index::lemma_without_absent_file;
use crate::index::lemma_without_file_members;
use crate::index::with_file;
use crate::index::without_path;
use crate::index::SearchIndex;
use crate::ingest::added_as;
use crate::ingest::noted_as;
use crate::ingest::PreparedView;
use crate::ledger::key_list;
use crate::ledger::ledger_without;
use crate::path::PathKey;
use crate::postings::holds_file;
use crate::postings::passes_filter;
use crate::postings::without_file;
use crate::postings::Posting;
use crate::postings::PostingReads;
use crate::query::RegexQuery;
use crate::snapshot::filter_for;
use crate::snapshot::group_filter;
use crate::snapshot::list_matches;
use crate::snapshot::SnapshotView;
use crate::trigram::PostingFilter;
use vstd::prelude::*;

verus! {

/// A removed file is gone: no path leads to it, no list since the cache file was written names it,
/// and no search comes upon it.
pub proof fn lemma_removed_file_is_gone(
    view: SnapshotView,
    base_file_count: u32,
    path: PathKey,
    reads: PostingReads,
    query: RegexQuery,
    trigram: u32,
)
    requires
        view.ids.contains_key(path),
        view.ids[path] < view.files.len(),
        forall|p: PathKey| #[trigger]
            view.ids.contains_key(p) && view.ids[p] == view.ids[path] ==> p == path,
    ensures
        ({
            let id = view.ids[path];
            let after = without_path(view, base_file_count, path);
            &&& !after.ids.contains_key(path)
            &&& !after.listed(id)
            &&& !after.active(id)
            &&& !holds_file(after.list(trigram), id)
            &&& !after.is_candidate(reads, query, id)
        }),
{
    let id = view.ids[path];
    let after = without_path(view, base_file_count, path);
    assert(after.files[id as int].path.len() == 0);
    if view.postings.contains_key(trigram) {
        lemma_without_file_members(view.postings[trigram], id);
    }
    if after.listed(id) {
        let p = choose|p: PathKey| #[trigger] after.ids.contains_key(p) && after.ids[p] == id;
        assert(view.ids.contains_key(p));
    }
    if after.is_candidate(reads, query, id) && query.and_trigrams@.len() > 0 {
        assert(after.has_all(reads, query, id));
        let t = query.and_trigrams@[0];
        assert(after.has_posting(reads, t, filter_for(query.and_filters@, t), id));
    }
}

proof fn lemma_other_postings_stay(
    postings: Seq<Posting>,
    filter: Option<PostingFilter>,
    gone: u32,
    other: u32,
)
    requires
        gone != other,
    ensures
        list_matches(without_file(postings, gone), filter, other) == list_matches(
            postings,
            filter,
            other,
        ),
    decreases postings.len(),
{
    reveal(Seq::filter);
    if postings.len() > 0 {
        let prev = postings.drop_last();
        let last = postings.last();
        lemma_other_postings_stay(prev, filter, gone, other);
        let kept = without_file(postings, gone);
        let earlier = without_file(prev, gone);
        assert(last == postings[postings.len() - 1]);
        if list_matches(prev, filter, other) {
            let i = choose|i: int|
                0 <= i < prev.len() && (#[trigger] prev[i]).file_id == other && passes_filter(
                    prev[i],
                    filter,
                );
            assert(postings[i] == prev[i]);
            let k = choose|k: int|
                0 <= k < earlier.len() && (#[trigger] earlier[k]).file_id == other
                    && passes_filter(earlier[k], filter);
            assert(kept[k] == earlier[k]);
        } else if list_matches(postings, filter, other) {
            let i = choose|i: int|
                0 <= i < postings.len() && (#[trigger] postings[i]).file_id == other
                    && passes_filter(postings[i], filter);
            if i < prev.len() {
                assert(prev[i] == postings[i]);
            }
            assert(postings[i] == last);
            assert(kept[earlier.len() as int] == last);
        } else if list_matches(kept, filter, other) {
            let k = choose|k: int|
                0 <= k < kept.len() && (#[trigger] kept[k]).file_id == other && passes_filter(
                    kept[k],
                    filter,
                );
            if k < earlier.len() {
                assert(earlier[k] == kept[k]);
            } else {
                assert(postings[postings.len() - 1] == kept[k]);
            }
        }
    }
}

/// Two versions in which a file counts alike and has the same postings give the same answer of it.
proof fn lemma_same_postings_same_answer(
    left: SnapshotView,
    right: SnapshotView,
    reads: PostingReads,
    query: RegexQuery,
    id: u32,
)
    requires
        left.active(id) == right.active(id),
        left.listed(id) == right.listed(id),
        left.active(id) ==> left.unindexed.contains(id) == right.unindexed.contains(id),
        forall|t: u32, f: Option<PostingFilter>| #[trigger]
            left.has_posting(reads, t, f, id) == right.has_posting(reads, t, f, id),
    ensures
        left.is_candidate(reads, query, id) == right.is_candidate(reads, query, id),
{
    lemma_answer_carries_over(left, right, reads, query, id);
    assert forall|t: u32, f: Option<PostingFilter>| #[trigger]
        right.has_posting(reads, t, f, id) == left.has_posting(reads, t, f, id) by {
        assert(left.has_posting(reads, t, f, id) == right.has_posting(reads, t, f, id));
    }
    lemma_answer_carries_over(right, left, reads, query, id);
}

proof fn lemma_answer_carries_over(
    left: SnapshotView,
    right: SnapshotView,
    reads: PostingReads,
    query: RegexQuery,
    id: u32,
)
    requires
        left.active(id) == right.active(id),
        left.listed(id) == right.listed(id),
        left.active(id) ==> left.unindexed.contains(id) == right.unindexed.contains(id),
        forall|t: u32, f: Option<PostingFilter>| #[trigger]
            left.has_posting(reads, t, f, id) == right.has_posting(reads, t, f, id),
    ensures
        left.is_candidate(reads, query, id) ==> right.is_candidate(reads, query, id),
{
    if left.has_all(reads, query, id) {
        assert forall|i: int| 0 <= i < query.and_trigrams@.len() implies right.has_posting(
            reads,
            #[trigger] query.and_trigrams@[i],
            filter_for(query.and_filters@, query.and_trigrams@[i]),
            id,
        ) by {
            let t = query.and_trigrams@[i];
            assert(left.has_posting(reads, t, filter_for(query.and_filters@, t), id));
        }
        assert(right.has_all(reads, query, id));
    }
    assert forall|g: int|
        0 <= g < query.or_groups@.len() && left.has_one_of(
            reads,
            query,
            g,
            id,
        ) implies #[trigger] right.has_one_of(reads, query, g, id) by {
        let group = query.or_groups@[g]@;
        let i = choose|i: int|
            0 <= i < group.len() && left.has_posting(
                reads,
                #[trigger] group[i],
                group_filter(query, g, group[i]),
                id,
            );
        assert(left.has_posting(reads, group[i], group_filter(query, g, group[i]), id));
        assert(right.has_posting(reads, group[i], group_filter(query, g, group[i]), id));
    }
    if left.is_candidate(reads, query, id) && !right.is_candidate(reads, query, id) {
        assert forall|g: int| 0 <= g < query.or_groups@.len() implies #[trigger] right.has_one_of(
            reads,
            query,
            g,
            id,
        ) by {
            assert(left.has_one_of(reads, query, g, id));
        }
    }
}

/// Removing a file changes no answer about another.
pub proof fn lemma_removal_keeps_other_files(
    view: SnapshotView,
    base_file_count: u32,
    path: PathKey,
    reads: PostingReads,
    query: RegexQuery,
    other: u32,
)
    requires
        view.ids.contains_key(path),
        view.ids[path] < view.files.len(),
        view.ids[path] != other,
    ensures
        without_path(view, base_file_count, path).is_candidate(reads, query, other)
            == view.is_candidate(reads, query, other),
{
    let id = view.ids[path];
    let after = without_path(view, base_file_count, path);
    assert(after.listed(other) == view.listed(other)) by {
        if view.listed(other) {
            let p = choose|p: PathKey| #[trigger]
                view.ids.contains_key(p) && view.ids[p] == other;
            assert(after.ids.contains_key(p) && after.ids[p] == other);
        }
        if after.listed(other) {
            let p = choose|p: PathKey| #[trigger]
                after.ids.contains_key(p) && after.ids[p] == other;
            assert(view.ids.contains_key(p) && view.ids[p] == other);
        }
    }
    assert forall|t: u32, f: Option<PostingFilter>| #[trigger]
        after.has_posting(reads, t, f, other) == view.has_posting(reads, t, f, other) by {
        lemma_other_postings_stay(view.list(t), f, id, other);
        if view.postings.contains_key(t) {
            if without_file(view.postings[t], id).len() == 0 {
                assert(!list_matches(without_file(view.postings[t], id), f, other));
            }
        } else {
            assert(!after.postings.contains_key(t));
        }
    }
    lemma_same_postings_same_answer(after, view, reads, query, other);
}

/// Adding a file changes no answer about another that its path did not lead to.
pub proof fn lemma_addition_keeps_other_files(
    view: SnapshotView,
    path: PathKey,
    metadata: SearchFileMetadata,
    content_hash: Seq<u8>,
    filters: Map<u32, PostingFilter>,
    reads: PostingReads,
    query: RegexQuery,
    other: u32,
)
    requires
        view.files.len() <= u32::MAX,
        other < view.files.len(),
        view.ids.contains_key(path) ==> view.ids[path] != other,
    ensures
        with_file(view, path, metadata, content_hash, filters).is_candidate(reads, query, other)
            == view.is_candidate(reads, query, other),
{
    let id = view.files.len() as u32;
    let after = with_file(view, path, metadata, content_hash, filters);
    assert(after.listed(other) == view.listed(other)) by {
        if view.listed(other) {
            let p = choose|p: PathKey| #[trigger]
                view.ids.contains_key(p) && view.ids[p] == other;
            assert(after.ids.contains_key(p) && after.ids[p] == other);
        }
        if after.listed(other) {
            let p = choose|p: PathKey| #[trigger]
                after.ids.contains_key(p) && after.ids[p] == other;
            assert(view.ids.contains_key(p) && view.ids[p] == other);
        }
    }
    assert forall|t: u32, f: Option<PostingFilter>| #[trigger]
        after.has_posting(reads, t, f, other) == view.has_posting(reads, t, f, other) by {
        let before = view.list(t);
        let list = after.list(t);
        if list_matches(before, f, other) {
            let i = choose|i: int|
                0 <= i < before.len() && (#[trigger] before[i]).file_id == other && passes_filter(
                    before[i],
                    f,
                );
            assert(list[i] == before[i]);
        }
        if list_matches(list, f, other) {
            let i = choose|i: int|
                0 <= i < list.len() && (#[trigger] list[i]).file_id == other && passes_filter(
                    list[i],
                    f,
                );
            assert(i < before.len());
            assert(before[i] == list[i]);
        }
    }
    lemma_same_postings_same_answer(after, view, reads, query, other);
}

/// Putting a new file into an index and taking it out again leaves every answer as it was: the path
/// table, the postings, the number of trigrams and of files, what is pending, and the candidates of
/// every query. Only a free slot is left at the end of the file table. Taking the file out once more
/// changes nothing.
pub proof fn lemma_adding_then_removing_changes_no_answer(
    index: SearchIndex,
    path: PathKey,
    canonical_path: PathKey,
    metadata: SearchFileMetadata,
    content_hash: Seq<u8>,
    filters: Map<u32, PostingFilter>,
)
    requires
        index.well_formed(),
        index.current@.files.len() <= u32::MAX,
        !index.current@.ids.contains_key(path),
        !index.current@.ids.contains_key(canonical_path),
    ensures
        ({
            let view = index.current@;
            let file = PreparedView::Indexed { metadata, content_hash, filters };
            let added = added_as(
                after_removal(view, index.base_file_count, path, canonical_path),
                path,
                file,
            );
            let noted = noted_as(
                ledger_without(index.ledger(), view.ids, path, canonical_path),
                after_removal(view, index.base_file_count, path, canonical_path),
                path,
                file,
            );
            let after = after_removal(added, index.base_file_count, path, canonical_path);
            &&& after.ids == view.ids
            &&& after.postings == view.postings
            &&& after.superseded == view.superseded
            &&& after.base == view.base
            &&& after.files == view.files.push(free_slot())
            &&& files_in_use(after.files) == files_in_use(view.files)
            &&& after.trigram_total() == view.trigram_total()
            &&& is_pending(after, index.base_file_count) == is_pending(view, index.base_file_count)
            &&& forall|reads: PostingReads, query: RegexQuery, id: u32| #[trigger]
                after.is_candidate(reads, query, id) == view.is_candidate(reads, query, id)
            &&& ledger_without(noted, added.ids, path, canonical_path).file_trigrams
                == index.ledger().file_trigrams
            &&& after_removal(after, index.base_file_count, path, canonical_path) == after
        }),
{
    let view = index.current@;
    let id = view.files.len() as u32;
    let added = with_file(view, path, metadata, content_hash, filters);
    let after = after_removal(added, index.base_file_count, path, canonical_path);
    assert(view.files.len() == index.current.files@.len());
    assert(added.ids.contains_key(path) && added.ids[path] == id);
    assert(after == without_path(added, index.base_file_count, path));
    assert(after.ids =~= view.ids);
    assert(after.files =~= view.files.push(free_slot()));
    assert(after.files.drop_last() =~= view.files);
    assert forall|t: u32| view.postings.contains_key(t) implies view.postings[t].len() > 0
        && !holds_file(#[trigger] view.postings[t], id) by {
        assert(index.current.delta.postings@.contains_key(t));
        assert(view.postings[t] == index.current.delta.postings@[t]@);
        if holds_file(view.postings[t], id) {
            let k = choose|k: int|
                0 <= k < view.postings[t].len() && (#[trigger] view.postings[t][k]).file_id == id;
            assert(index.current.delta.postings@[t]@[k].file_id < index.current.files@.len());
        }
    }
    assert forall|t: u32| #[trigger] added.postings.contains_key(t) implies without_file(
        added.postings[t],
        id,
    ) == view.list(t) by {
        let list = view.list(t);
        lemma_without_absent_file(list, id);
        if filters.contains_key(t) {
            reveal(Seq::filter);
            assert(added.postings[t].drop_last() =~= list);
        }
    }
    assert(after.postings =~= view.postings);
    assert(after.new_trigrams() =~= view.new_trigrams());
    assert forall|reads: PostingReads, query: RegexQuery, other: u32| #[trigger]
        after.is_candidate(reads, query, other) == view.is_candidate(reads, query, other) by {
        assert(after.active(other) == view.active(other));
        assert(after.listed(other) == view.listed(other));
        assert forall|t: u32, f: Option<PostingFilter>| #[trigger]
            after.has_posting(reads, t, f, other) == view.has_posting(reads, t, f, other) by {}
        lemma_same_postings_same_answer(after, view, reads, query, other);
    }
    let ledger = index.ledger();
    assert(!index.delta_file_trigrams@.contains_key(id));
    assert(ledger.file_trigrams.insert(id, key_list(filters)).remove(id) =~= ledger.file_trigrams);
}

} // verus!
