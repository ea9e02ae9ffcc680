//! Laws of upkeep: every change leaves the index up to date with the files it knows.

use crate::builder_laws::lemma_build_lists_agree;
use crate::builder_laws::Build;
use crate::compact::kept_ids;
use crate::compact::lemma_kept_upto;
use crate::compact_laws::knows;
use crate::compact_laws::lemma_compaction_keeps_postings;
use crate::compact_laws::Compaction;
use crate::completeness::describes;
use crate::completeness::lemma_added_file_is_described;
use crate::completeness::list_describes;
use crate::index::after_removal;
use crate::index::table_key;
use crate::index::without_path;
use crate::ingest::added_as;
use crate::ingest::PreparedView;
use crate::path::PathKey;
use crate::postings::without_file;
use crate::postings::Posting;
use crate::postings::PostingReads;
use crate::refresh::checked_file;
use crate::refresh::FreshnessVerdict;
use crate::search_laws::up_to_date;
use crate::snapshot::SnapshotView;
use crate::trigram::filter_map;
use crate::trigram::filter_of;
use crate::trigram::has_trigram;
use vstd::prelude::*;

verus! {

/// Each path leads to a file of that path.
pub open spec fn paths_lead(view: SnapshotView) -> bool {
    forall|p: PathKey| #[trigger]
        view.ids.contains_key(p) ==> view.ids[p] < view.files.len() && view.files[view.ids[p] as int].path
            == p
}

proof fn lemma_longer_list_describes(
    list: Seq<Posting>,
    more: Seq<Posting>,
    id: u32,
    trigram: u32,
    content: Seq<u8>,
)
    requires
        list_describes(list, id, trigram, content),
        forall|p: Posting| #[trigger] list.contains(p) && p.file_id == id ==> more.contains(p),
    ensures
        list_describes(more, id, trigram, content),
{
    let i = choose|i: int|
        0 <= i < list.len() && (#[trigger] list[i]).file_id == id && list[i].next_mask == filter_of(
            content,
            trigram,
            true,
        ).next_mask;
    assert(list.contains(list[i]));
    let k = more.index_of(list[i]);
    assert(more[k].file_id == id);
}

/// What describes a file goes on describing it where the file still counts, has its path, and keeps
/// its postings.
proof fn lemma_still_described(
    view: SnapshotView,
    reads: PostingReads,
    after: SnapshotView,
    id: u32,
    content: Seq<u8>,
)
    requires
        describes(view, reads, id, content),
        after.base == view.base,
        after.active(id),
        after.listed(id),
        forall|t: u32, p: Posting|
            view.list(t).contains(p) && p.file_id == id ==> #[trigger] after.list(t).contains(p),
    ensures
        describes(after, reads, id, content),
{
    assert forall|t: u32| #[trigger] has_trigram(content, t) implies list_describes(
        reads.base_list(after.base, t),
        id,
        t,
        content,
    ) || list_describes(after.list(t), id, t, content) by {
        if list_describes(view.list(t), id, t, content) {
            assert forall|p: Posting| #[trigger]
                view.list(t).contains(p) && p.file_id == id implies after.list(t).contains(p) by {}
            lemma_longer_list_describes(view.list(t), after.list(t), id, t, content);
        }
    }
}

proof fn lemma_without_file_keeps_others(postings: Seq<Posting>, file_id: u32, posting: Posting)
    requires
        postings.contains(posting),
        posting.file_id != file_id,
    ensures
        without_file(postings, file_id).contains(posting),
    decreases postings.len(),
{
    reveal(Seq::filter);
    let prev = postings.drop_last();
    let last = postings.last();
    let kept = without_file(postings, file_id);
    let earlier = without_file(prev, file_id);
    let i = postings.index_of(posting);
    if i < prev.len() {
        assert(prev[i] == posting);
        lemma_without_file_keeps_others(prev, file_id, posting);
        let k = earlier.index_of(posting);
        assert(kept[k] == posting);
    } else {
        assert(kept[kept.len() - 1] == posting);
    }
}

/// A removal keeps the index up to date with the files that are left.
pub proof fn lemma_removal_keeps_up_to_date(
    view: SnapshotView,
    base_file_count: u32,
    path: PathKey,
    canonical: PathKey,
    reads: PostingReads,
    contents: Map<u32, Vec<u8>>,
)
    requires
        paths_lead(view),
        up_to_date(view, reads, contents),
    ensures
        paths_lead(after_removal(view, base_file_count, path, canonical)),
        up_to_date(after_removal(view, base_file_count, path, canonical), reads, contents),
{
    if let Some(key) = table_key(view.ids, path, canonical) {
        let gone = view.ids[key];
        let after = without_path(view, base_file_count, key);
        assert forall|p: PathKey| #[trigger] after.ids.contains_key(p) implies after.ids[p]
            < after.files.len() && after.files[after.ids[p] as int].path == p by {
            assert(view.ids.contains_key(p));
            assert(view.ids.contains_key(key));
            if after.ids[p] == gone {
                assert(p == key);
            }
        }
        assert forall|id: u32| #[trigger] after.active(id) implies after.listed(id) && (
        after.unindexed.contains(id) || !contents.contains_key(id) || describes(
            after,
            reads,
            id,
            contents[id]@,
        )) by {
            assert(view.ids.contains_key(key));
            assert(id != gone) by {
                assert(after.files[gone as int].path.len() == 0);
            }
            assert(view.active(id));
            let p = choose|p: PathKey| #[trigger] view.ids.contains_key(p) && view.ids[p] == id;
            assert(after.ids.contains_key(p) && after.ids[p] == id);
            if !view.unindexed.contains(id) && contents.contains_key(id) {
                assert forall|t: u32, p: Posting|
                    view.list(t).contains(p) && p.file_id == id implies #[trigger] after.list(
                    t,
                ).contains(p) by {
                    assert(view.postings.contains_key(t));
                    lemma_without_file_keeps_others(view.postings[t], gone, p);
                }
                lemma_still_described(view, reads, after, id, contents[id]@);
            }
        }
    }
}

/// A file that is added under a path of its own is known by its content from then on, and the others
/// are as before.
pub proof fn lemma_addition_keeps_up_to_date(
    view: SnapshotView,
    path: PathKey,
    file: PreparedView,
    content: Vec<u8>,
    reads: PostingReads,
    contents: Map<u32, Vec<u8>>,
)
    requires
        paths_lead(view),
        up_to_date(view, reads, contents),
        view.files.len() <= u32::MAX,
        path.len() > 0,
        !view.ids.contains_key(path),
        !view.superseded.contains(view.files.len() as u32),
        file matches PreparedView::Indexed { filters, .. } ==> filters == filter_map(
            content@,
            true,
        ),
        !(file is Skipped),
    ensures
        paths_lead(added_as(view, path, file)),
        up_to_date(
            added_as(view, path, file),
            reads,
            contents.insert(view.files.len() as u32, content),
        ),
{
    let new_id = view.files.len() as u32;
    let after = added_as(view, path, file);
    let now = contents.insert(new_id, content);
    assert forall|p: PathKey| #[trigger] after.ids.contains_key(p) implies after.ids[p]
        < after.files.len() && after.files[after.ids[p] as int].path == p by {
        if p != path {
            assert(view.ids.contains_key(p));
        }
    }
    assert forall|id: u32| #[trigger] after.active(id) implies after.listed(id) && (
    after.unindexed.contains(id) || !now.contains_key(id) || describes(
        after,
        reads,
        id,
        now[id]@,
    )) by {
        if id == new_id {
            assert(after.ids.contains_key(path) && after.ids[path] == new_id);
            if let PreparedView::Indexed { metadata, content_hash, filters } = file {
                lemma_added_file_is_described(
                    view,
                    reads,
                    path,
                    metadata,
                    content_hash,
                    content@,
                );
            }
        } else {
            assert(view.active(id));
            let p = choose|p: PathKey| #[trigger] view.ids.contains_key(p) && view.ids[p] == id;
            assert(after.ids.contains_key(p) && after.ids[p] == id);
            if !view.unindexed.contains(id) && contents.contains_key(id) {
                assert forall|t: u32, p: Posting|
                    view.list(t).contains(p) && p.file_id == id implies #[trigger] after.list(
                    t,
                ).contains(p) by {
                    let list = view.list(t);
                    let k = list.index_of(p);
                    assert(view.postings.contains_key(t));
                    assert(after.list(t)[k] == p);
                }
                lemma_still_described(view, reads, after, id, contents[id]@);
            }
        }
    }
}

/// A file that is put in anew is known by its new content from then on, and the others are as
/// before.
pub proof fn lemma_update_keeps_up_to_date(
    view: SnapshotView,
    base_file_count: u32,
    path: PathKey,
    canonical: PathKey,
    file: PreparedView,
    content: Vec<u8>,
    reads: PostingReads,
    contents: Map<u32, Vec<u8>>,
)
    requires
        paths_lead(view),
        up_to_date(view, reads, contents),
        view.files.len() <= u32::MAX,
        path.len() > 0,
        base_file_count <= view.files.len(),
        forall|id: u32| #[trigger] view.superseded.contains(id) ==> id < base_file_count,
        file matches PreparedView::Indexed { filters, .. } ==> filters == filter_map(
            content@,
            true,
        ),
        !(file is Skipped),
    ensures
        up_to_date(
            added_as(after_removal(view, base_file_count, path, canonical), path, file),
            reads,
            contents.insert(view.files.len() as u32, content),
        ),
{
    let removed = after_removal(view, base_file_count, path, canonical);
    lemma_removal_keeps_up_to_date(view, base_file_count, path, canonical, reads, contents);
    assert(removed.files.len() == view.files.len());
    assert(!removed.ids.contains_key(path));
    assert(!removed.superseded.contains(view.files.len() as u32));
    lemma_addition_keeps_up_to_date(removed, path, file, content, reads, contents);
}

/// A check that takes over new times and sizes changes nothing of what is known of the files.
pub proof fn lemma_check_keeps_up_to_date(
    view: SnapshotView,
    found: Set<PathKey>,
    verdicts: Seq<FreshnessVerdict>,
    reads: PostingReads,
    contents: Map<u32, Vec<u8>>,
)
    requires
        paths_lead(view),
        up_to_date(view, reads, contents),
    ensures
        ({
            let after = SnapshotView {
                files: Seq::new(
                    view.files.len(),
                    |i: int| checked_file(view.files[i], found, verdicts[i]),
                ),
                ..view
            };
            &&& paths_lead(after)
            &&& up_to_date(after, reads, contents)
        }),
{
    let after = SnapshotView {
        files: Seq::new(
            view.files.len(),
            |i: int| checked_file(view.files[i], found, verdicts[i]),
        ),
        ..view
    };
    assert forall|p: PathKey| #[trigger] after.ids.contains_key(p) implies after.ids[p]
        < after.files.len() && after.files[after.ids[p] as int].path == p by {
        assert(view.ids.contains_key(p));
    }
    assert forall|id: u32| #[trigger] after.active(id) implies after.listed(id) && (
    after.unindexed.contains(id) || !contents.contains_key(id) || describes(
        after,
        reads,
        id,
        contents[id]@,
    )) by {
        assert(view.active(id));
        let p = choose|p: PathKey| #[trigger] view.ids.contains_key(p) && view.ids[p] == id;
        assert(after.ids.contains_key(p) && after.ids[p] == id);
        if !view.unindexed.contains(id) && contents.contains_key(id) {
            assert forall|t: u32, p: Posting|
                view.list(t).contains(p) && p.file_id == id implies #[trigger] after.list(
                t,
            ).contains(p) by {
                assert(after.list(t) == view.list(t));
            }
            lemma_still_described(view, reads, after, id, contents[id]@);
        }
    }
}

/// An index that was built with its postings spilled is as up to date as one held in memory.
pub proof fn lemma_build_keeps_up_to_date(
    run: Build,
    reads: PostingReads,
    contents: Map<u32, Vec<u8>>,
)
    requires
        run.sound(),
        up_to_date(run.builder@, reads, contents),
    ensures
        up_to_date(run.after(), run.reads, contents),
{
    let view = run.builder@;
    let after = run.after();
    assert forall|id: u32| #[trigger] after.active(id) implies after.listed(id) && (
    after.unindexed.contains(id) || !contents.contains_key(id) || describes(
        after,
        run.reads,
        id,
        contents[id]@,
    )) by {
        assert(view.active(id));
        let p = choose|p: PathKey| #[trigger] view.ids.contains_key(p) && view.ids[p] == id;
        assert(after.ids.contains_key(p) && after.ids[p] == id);
        if !view.unindexed.contains(id) && contents.contains_key(id) {
            let content = contents[id]@;
            assert forall|t: u32| #[trigger] has_trigram(content, t) implies list_describes(
                run.reads.base_list(after.base, t),
                id,
                t,
                content,
            ) by {
                lemma_build_lists_agree(run, t);
                assert(reads.base_list(view.base, t) =~= Seq::<Posting>::empty());
                lemma_longer_list_describes(
                    view.list(t),
                    run.reads.base_list(after.base, t),
                    id,
                    t,
                    content,
                );
            }
        }
    }
}

/// A compaction keeps what the index knows of a file, under the file's new id.
pub proof fn lemma_compaction_keeps_descriptions(run: Compaction, id: u32, content: Seq<u8>)
    requires
        run.sound(),
        describes(run.view, run.reads, id, content),
    ensures
        run.plan.id_map@.contains_key(id),
        describes(run.after(), run.new_reads, run.plan.id_map@[id], content),
{
    let view = run.view;
    let after = run.after();
    let ids = run.plan.id_map@;
    let kept = kept_ids(view);
    lemma_kept_upto(view, view.files.len() as int);
    assert(kept.contains(id));
    assert(ids.contains_key(id));
    let new_id = ids[id];
    assert(kept[new_id as int] == id);
    assert(after.files[new_id as int] == view.files[id as int]);
    assert(after.active(new_id));
    assert(after.listed(new_id)) by {
        let p = choose|p: PathKey| #[trigger] view.ids.contains_key(p) && view.ids[p] == id;
        assert(run.plan.path_to_id@.contains_key(p));
        let k = run.plan.path_to_id@[p];
        assert(kept[k as int] == id);
        if k < new_id {
            assert(kept[k as int] < kept[new_id as int]);
        }
        if new_id < k {
            assert(kept[new_id as int] < kept[k as int]);
        }
        assert(after.ids.contains_key(p) && after.ids[p] == new_id);
    }
    assert forall|t: u32| #[trigger] has_trigram(content, t) implies list_describes(
        run.new_reads.base_list(after.base, t),
        new_id,
        t,
        content,
    ) by {
        let on_disk = run.reads.base_list(view.base, t);
        let since = view.list(t);
        let list = if list_describes(on_disk, id, t, content) {
            on_disk
        } else {
            since
        };
        let i = choose|i: int|
            0 <= i < list.len() && (#[trigger] list[i]).file_id == id && list[i].next_mask
                == filter_of(content, t, true).next_mask;
        let posting = list[i];
        assert(list.contains(posting));
        assert(knows(view, run.reads, t, posting));
        lemma_compaction_keeps_postings(
            view,
            run.reads,
            ids,
            run.delta,
            run.base,
            run.new_reads,
            t,
            posting,
        );
        let moved = Posting { file_id: new_id, ..posting };
        let new_list = run.new_reads.base_list(after.base, t);
        let k = new_list.index_of(moved);
        assert(new_list[k].file_id == new_id);
    }
}

} // verus!
