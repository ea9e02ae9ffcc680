//! Laws of taking files in: what becomes of a file, and what adding and removing one changes.

use crate::file_entry::SearchFileMetadata;
use crate::index::after_removal;
use crate::index::compaction_after;
use crate::index::files_in_use;
use crate::index::CompactionView;
use crate::ingest::added_as;
use crate::ingest::indexed_content;
use crate::ingest::ingested_count;
use crate::ingest::left_unindexed;
use crate::ingest::prepared;
use crate::ingest::PreparedView;
use crate::lexical_laws::spelled_in;
use crate::outside::blake3_hash;
use crate::outside::looks_binary;
use crate::path::PathKey;
use crate::postings::without_file;
use crate::postings::Posting;
use crate::snapshot::SnapshotView;
use crate::trigram_laws::goes_on_with;
use crate::trigram_laws::lemma_masks_tell_what_follows_and_where;
use crate::trigram_laws::lemma_texts_have_the_trigrams_spelled_in_them;
use crate::trigram_laws::stands_at_turn;
use vstd::prelude::*;

verus! {

/// A file that the disk does not know, or that cannot be read, is skipped. One that is larger than the
/// limit, or binary by its front or by its content, is kept without postings. Any other is indexed: by
/// the hash of its content and the trigrams that are spelled in it.
pub proof fn lemma_what_becomes_of_a_file(
    metadata: SearchFileMetadata,
    preview: Option<Seq<u8>>,
    content: Option<Seq<u8>>,
    max_file_size: u64,
    trigram: u32,
)
    ensures
        prepared(None, preview, content, max_file_size) is Skipped,
        metadata.size > max_file_size ==> prepared(Some(metadata), preview, content, max_file_size)
            == PreparedView::Unindexed(metadata),
        metadata.size > 0 && (preview is None || looks_binary(preview->0)) ==> prepared(
            Some(metadata),
            preview,
            content,
            max_file_size,
        ) == PreparedView::Unindexed(metadata),
        metadata.size <= max_file_size && (metadata.size == 0 || (preview is Some && !looks_binary(
            preview->0,
        ))) ==> {
            let file = prepared(Some(metadata), preview, content, max_file_size);
            &&& content is None ==> file is Skipped
            &&& content is Some && looks_binary(content->0) ==> file == PreparedView::Unindexed(
                metadata,
            )
            &&& content is Some && !looks_binary(content->0) ==> {
                &&& file is Indexed
                &&& file->metadata == metadata
                &&& file->content_hash == blake3_hash(content->0)
                &&& file->filters.contains_key(trigram) <==> exists|at: int| #[trigger]
                    spelled_in(content->0, trigram, at)
            }
        },
        left_unindexed(metadata, preview, max_file_size) <==> metadata.size > max_file_size || (
        metadata.size > 0 && (preview is None || looks_binary(preview->0))),
{
    if let Some(content) = content {
        lemma_texts_have_the_trigrams_spelled_in_them(content, true, trigram);
    }
}

/// Content that is put into the index as it is goes in whatever it is.
pub proof fn lemma_given_content_is_indexed(
    metadata: SearchFileMetadata,
    content: Seq<u8>,
    trigram: u32,
)
    ensures
        indexed_content(metadata, content) is Indexed,
        indexed_content(metadata, content)->metadata == metadata,
        indexed_content(metadata, content)->content_hash == blake3_hash(content),
        indexed_content(metadata, content)->filters.contains_key(trigram) <==> exists|at: int|
         #[trigger]
            spelled_in(content, trigram, at),
{
    lemma_texts_have_the_trigrams_spelled_in_them(content, true, trigram);
}

/// The masks of an indexed trigram tell of every byte that stands behind it, the end of the file
/// counting as a zero byte, and of every place at which it stands.
pub proof fn lemma_indexed_masks_tell_what_follows_and_where(
    metadata: SearchFileMetadata,
    preview: Option<Seq<u8>>,
    content: Seq<u8>,
    max_file_size: u64,
    trigram: u32,
    bit: u8,
)
    requires
        bit < 8,
    ensures
        indexed_content(metadata, content)->filters.contains_key(trigram) ==> {
            let filter = indexed_content(metadata, content)->filters[trigram];
            &&& filter.next_mask & (1u8 << bit) != 0 <==> exists|at: int| #[trigger]
                goes_on_with(content, trigram, true, bit, at)
            &&& filter.loc_mask & (1u8 << bit) != 0 <==> exists|at: int| #[trigger]
                stands_at_turn(content, trigram, bit, at)
        },
        prepared(Some(metadata), preview, Some(content), max_file_size) is Indexed ==> prepared(
            Some(metadata),
            preview,
            Some(content),
            max_file_size,
        ) == indexed_content(metadata, content),
{
    lemma_masks_tell_what_follows_and_where(content, trigram, true, bit);
}

/// A file that is added gets the next slot, with its path, size, time and hash, and its path leads
/// there. Its trigrams are counted, and each gets a posting of the file behind those it has. Other
/// paths, slots and postings stay as they are.
pub proof fn lemma_adding_an_indexed_file(
    view: SnapshotView,
    path: PathKey,
    file: PreparedView,
    trigram: u32,
)
    requires
        view.files.len() <= u32::MAX,
        file is Indexed,
        file->filters.dom().finite(),
        file->filters.dom().len() <= u32::MAX,
        view.file_trigram_count.len() <= view.files.len(),
    ensures
        ({
            let after = added_as(view, path, file);
            let id = view.files.len() as u32;
            let before = if view.postings.contains_key(trigram) {
                view.postings[trigram]
            } else {
                Seq::empty()
            };
            &&& after.files.len() == id + 1
            &&& after.files.drop_last() == view.files
            &&& after.files[id as int].path == path
            &&& after.files[id as int].size == file->metadata.size
            &&& after.files[id as int].modified == file->metadata.modified
            &&& after.files[id as int].content_hash == file->content_hash
            &&& after.ids == view.ids.insert(path, id)
            &&& after.file_trigram_count.len() == id + 1
            &&& after.file_trigram_count[id as int] == file->filters.dom().len()
            &&& forall|i: int|
                0 <= i < id ==> #[trigger] after.file_trigram_count[i] == (if i
                    < view.file_trigram_count.len() {
                    view.file_trigram_count[i]
                } else {
                    0
                })
            &&& !after.unindexed.contains(id)
            &&& forall|other: u32|
                other != id ==> after.unindexed.contains(other) == view.unindexed.contains(other)
            &&& after.superseded == view.superseded
            &&& after.base == view.base
            &&& after.ready == view.ready
            &&& after.project_root == view.project_root
            &&& file->filters.contains_key(trigram) ==> after.postings.contains_key(trigram)
                && after.postings[trigram] == before.push(
                Posting {
                    file_id: id,
                    next_mask: file->filters[trigram].next_mask,
                    loc_mask: file->filters[trigram].loc_mask,
                },
            )
            &&& !file->filters.contains_key(trigram) ==> after.postings.contains_key(trigram)
                == view.postings.contains_key(trigram) && (view.postings.contains_key(trigram)
                ==> after.postings[trigram] == before)
        }),
{
    let after = added_as(view, path, file);
    assert(after.files.drop_last() =~= view.files);
    assert(file->filters.dom().len() == file->filters.len());
}

/// A file that is kept without postings gets the next slot, with no hash, and its path leads there. It
/// counts as a file without postings, and no posting changes.
pub proof fn lemma_adding_a_file_without_postings(
    view: SnapshotView,
    path: PathKey,
    metadata: SearchFileMetadata,
)
    requires
        view.files.len() <= u32::MAX,
        view.file_trigram_count.len() <= view.files.len(),
    ensures
        ({
            let after = added_as(view, path, PreparedView::Unindexed(metadata));
            let id = view.files.len() as u32;
            &&& after.files.len() == id + 1
            &&& after.files.drop_last() == view.files
            &&& after.files[id as int].path == path
            &&& after.files[id as int].size == metadata.size
            &&& after.files[id as int].modified == metadata.modified
            &&& after.files[id as int].content_hash.len() == 32
            &&& forall|i: int|
                0 <= i < 32 ==> #[trigger] after.files[id as int].content_hash[i] == 0
            &&& after.ids == view.ids.insert(path, id)
            &&& after.file_trigram_count.len() == id + 1
            &&& after.file_trigram_count[id as int] == 0
            &&& forall|i: int|
                0 <= i < id ==> #[trigger] after.file_trigram_count[i] == (if i
                    < view.file_trigram_count.len() {
                    view.file_trigram_count[i]
                } else {
                    0
                })
            &&& after.unindexed == view.unindexed.insert(id)
            &&& after.postings == view.postings
            &&& after.superseded == view.superseded
            &&& after.base == view.base
            &&& after.ready == view.ready
            &&& after.project_root == view.project_root
        }),
{
    let after = added_as(view, path, PreparedView::Unindexed(metadata));
    assert(after.files.drop_last() =~= view.files);
}

/// A skipped file changes nothing, and nothing is added once all ids are taken.
pub proof fn lemma_skipping_changes_nothing(view: SnapshotView, path: PathKey, file: PreparedView)
    requires
        file is Skipped || view.files.len() > u32::MAX,
    ensures
        added_as(view, path, file) == view,
{
}

/// A removal frees the slot of the path's file, takes the path out of the table and the file's
/// postings out of the lists; a file that the cache file knows is noted as replaced. The path counts
/// as given, or else in its canonical form; a path that leads nowhere changes nothing.
pub proof fn lemma_removing_a_file(
    view: SnapshotView,
    base_file_count: u32,
    path: PathKey,
    canonical: PathKey,
    trigram: u32,
    posting: Posting,
)
    requires
        forall|p: PathKey| #[trigger] view.ids.contains_key(p) ==> view.ids[p] < view.files.len(),
    ensures
        ({
            let after = after_removal(view, base_file_count, path, canonical);
            let key = if view.ids.contains_key(path) {
                path
            } else {
                canonical
            };
            let id = view.ids[key];
            &&& !view.ids.contains_key(path) && !view.ids.contains_key(canonical) ==> after == view
            &&& view.ids.contains_key(key) ==> {
                &&& after.ids == view.ids.remove(key)
                &&& after.files.len() == view.files.len()
                &&& after.files[id as int].path.len() == 0
                &&& after.files[id as int].size == 0
                &&& forall|i: int|
                    0 <= i < view.files.len() && i != id ==> #[trigger] after.files[i]
                        == view.files[i]
                &&& forall|other: u32|
                    after.superseded.contains(other) <==> view.superseded.contains(other) || (other
                        == id && id < base_file_count)
                &&& !after.unindexed.contains(id)
                &&& forall|other: u32|
                    other != id ==> after.unindexed.contains(other) == view.unindexed.contains(
                        other,
                    )
                &&& (after.postings.contains_key(trigram) && after.postings[trigram].contains(
                    posting,
                )) <==> (view.postings.contains_key(trigram) && view.postings[trigram].contains(
                    posting,
                ) && posting.file_id != id)
                &&& after.postings.contains_key(trigram) ==> after.postings[trigram].len() > 0
                    && after.postings[trigram] == view.postings[trigram].filter(
                    |p: Posting| p.file_id != id,
                )
                &&& after.file_trigram_count.len() == view.file_trigram_count.len()
                &&& forall|i: int|
                    0 <= i < view.file_trigram_count.len() ==> #[trigger] after.file_trigram_count[i]
                        == (if i == id {
                        0
                    } else {
                        view.file_trigram_count[i]
                    })
                &&& after.base == view.base
                &&& after.ready == view.ready
                &&& after.project_root == view.project_root
            }
        }),
{
    let after = after_removal(view, base_file_count, path, canonical);
    let key = if view.ids.contains_key(path) {
        path
    } else {
        canonical
    };
    let id = view.ids[key];
    if view.ids.contains_key(key) && view.postings.contains_key(trigram) {
        let list = view.postings[trigram];
        let test = |p: Posting| p.file_id != id;
        assert(without_file(list, id) == list.filter(test));
        lemma_filter_holds(list, test, posting);
        if list.filter(test).contains(posting) {
            assert(list.filter(test).len() > 0);
        }
    }
}

proof fn lemma_filter_holds(list: Seq<Posting>, test: spec_fn(Posting) -> bool, posting: Posting)
    ensures
        list.filter(test).contains(posting) <==> list.contains(posting) && test(posting),
    decreases list.len(),
{
    reveal(Seq::filter);
    if list.len() > 0 {
        let front = list.drop_last();
        let last = list.last();
        lemma_filter_holds(front, test, posting);
        let earlier = front.filter(test);
        let all = list.filter(test);
        assert(list[list.len() - 1] == last);
        if front.contains(posting) {
            let k = front.index_of(posting);
            assert(list[k] == posting);
        }
        if list.contains(posting) && posting != last {
            let k = list.index_of(posting);
            assert(front[k] == posting);
        }
        if test(last) {
            assert(all == earlier.push(last));
            assert(all[earlier.len() as int] == last);
            if earlier.contains(posting) {
                let k = earlier.index_of(posting);
                assert(all[k] == posting);
            }
            if all.contains(posting) && posting != last {
                let k = all.index_of(posting);
                assert(earlier[k] == posting);
            }
        }
    }
}

/// As many files are taken in as were not skipped, while there are ids.
pub proof fn lemma_files_taken_in_are_counted(
    view: SnapshotView,
    paths: Seq<PathKey>,
    files: Seq<PreparedView>,
    count: int,
)
    requires
        0 <= count <= files.len(),
        view.files.len() + count <= u32::MAX,
    ensures
        ingested_count(view, paths, files, count) == files.take(count).filter(
            |file: PreparedView| !(file is Skipped),
        ).len(),
        crate::ingest::ingested(view, paths, files, count).files.len() == view.files.len()
            + ingested_count(view, paths, files, count),
        0 <= ingested_count(view, paths, files, count) <= count,
    decreases count,
{
    reveal(Seq::filter);
    if count > 0 {
        lemma_files_taken_in_are_counted(view, paths, files, count - 1);
        assert(files.take(count).drop_last() =~= files.take(count - 1));
        assert(files.take(count).last() == files[count - 1]);
    } else {
        assert(files.take(0) =~= Seq::empty());
    }
}

/// The number of files is the number of slots with a path.
pub proof fn lemma_files_are_counted_by_their_paths(files: Seq<crate::file_entry::FileView>)
    ensures
        files_in_use(files) == files.filter(
            |file: crate::file_entry::FileView| file.path.len() > 0,
        ).len(),
    decreases files.len(),
{
    reveal(Seq::filter);
    if files.len() > 0 {
        lemma_files_are_counted_by_their_paths(files.drop_last());
    }
}

/// A change asks for a compaction once a thousand files changed or 32 mebibytes of postings came
/// together, and not before; while one runs, the changed path is kept for later. Nothing takes a
/// request back.
pub proof fn lemma_changes_ask_for_compaction(
    state: CompactionView,
    path: PathKey,
    delta_files: int,
    packed_bytes: int,
)
    ensures
        ({
            let after = compaction_after(state, path, delta_files, packed_bytes);
            &&& after.running == state.running
            &&& delta_files >= 1000 || packed_bytes >= 33_554_432 ==> after.requested_again
            &&& delta_files < 1000 && packed_bytes < 33_554_432 ==> after.requested_again
                == state.requested_again
            &&& state.requested_again ==> after.requested_again
            &&& state.running ==> after.buffered_paths == state.buffered_paths.push(path)
            &&& !state.running ==> after.buffered_paths == state.buffered_paths
        }),
{
}

} // verus!
