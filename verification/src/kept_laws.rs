//! Laws of what a compaction keeps, when one is due, and of how sizes are counted.

use crate::compact::are_delta_records;
use crate::compact::compacted_view;
use crate::compact::from_lists;
use crate::compact::is_pending;
use crate::compact::kept_ids;
use crate::compact::kept_upto;
use crate::file_entry::file_views;
use crate::file_entry::FileView;
use crate::format::CacheWritePlan;
use crate::index::packed_bytes;
use crate::index::SearchIndex;
use crate::ingest::path_views;
use crate::memory::paths_size;
use crate::memory::table_size;
use crate::memory::told;
use crate::path::PathKey;
use crate::path::SearchPath;
use crate::path_text::path_text;
use crate::postings::LookupEntry;
use crate::postings::Posting;
use crate::records::SpillRecord;
use crate::snapshot::SnapshotView;
use vstd::layout::size_of;
use vstd::prelude::*;
use vstd::utf8::encode_utf8;

verus! {

proof fn lemma_kept_files_upto(view: SnapshotView, count: int, id: u32)
    requires
        0 <= count <= view.files.len(),
        view.files.len() <= u32::MAX + 1,
    ensures
        kept_upto(view, count).contains(id) <==> {
            &&& id < count
            &&& view.files[id as int].path.len() > 0
            &&& !view.superseded.contains(id)
            &&& exists|path: PathKey| #[trigger] view.ids.contains_key(path) && view.ids[path] == id
        },
        forall|k: int| 0 <= k < kept_upto(view, count).len() ==> #[trigger] kept_upto(view, count)[k]
            < count,
        forall|i: int, j: int|
            #![trigger kept_upto(view, count)[i], kept_upto(view, count)[j]]
            0 <= i < j < kept_upto(view, count).len() ==> kept_upto(view, count)[i] < kept_upto(
                view,
                count,
            )[j],
    decreases count,
{
    if count > 0 {
        lemma_kept_files_upto(view, count - 1, id);
        let earlier = kept_upto(view, count - 1);
        let all = kept_upto(view, count);
        let last = (count - 1) as u32;
        if all.len() > earlier.len() {
            assert(all[earlier.len() as int] == last);
        }
        if earlier.contains(id) {
            assert(all[earlier.index_of(id)] == id);
        }
        if all.contains(id) && id != last {
            let k = all.index_of(id);
            assert(earlier[k] == id);
        }
        assert forall|i: int, j: int| #![trigger all[i], all[j]] 0 <= i < j < all.len() implies all[i]
            < all[j] by {
            assert(all[i] == earlier[i]);
            if j < earlier.len() {
                assert(all[j] == earlier[j]);
            }
        }
    }
}

/// A compaction keeps the files that have a path, that no newer file stands for, and that some path
/// leads to. They keep their order.
pub proof fn lemma_which_files_are_kept(view: SnapshotView, id: u32)
    requires
        view.files.len() <= u32::MAX + 1,
    ensures
        kept_ids(view).contains(id) <==> {
            &&& id < view.files.len()
            &&& view.files[id as int].path.len() > 0
            &&& !view.superseded.contains(id)
            &&& exists|path: PathKey| #[trigger] view.ids.contains_key(path) && view.ids[path] == id
        },
        forall|i: int, j: int|
            #![trigger kept_ids(view)[i], kept_ids(view)[j]]
            0 <= i < j < kept_ids(view).len() ==> kept_ids(view)[i] < kept_ids(view)[j],
{
    lemma_kept_files_upto(view, view.files.len() as int, id);
}

/// What a plan keeps of a file: its entry, the paths that lead to it, whether it has postings, and
/// how many trigrams it has.
pub proof fn lemma_what_is_kept_of_a_file(
    plan: CacheWritePlan,
    view: SnapshotView,
    kept: Seq<u32>,
    k: int,
    path: PathKey,
)
    requires
        plan.keeps(view, kept),
        0 <= k < kept.len(),
        kept.len() <= u32::MAX,
    ensures
        plan.files@.len() == kept.len(),
        plan.files@[k]@ == view.files[kept[k] as int],
        plan.unindexed_files@.contains(k as u32) <==> view.unindexed.contains(kept[k]),
        plan.file_trigram_count@.len() == kept.len(),
        kept[k] < view.file_trigram_count.len() ==> plan.file_trigram_count@[k]
            == view.file_trigram_count[kept[k] as int],
        kept[k] >= view.file_trigram_count.len() ==> plan.file_trigram_count@[k] == 0,
        plan.path_to_id@.contains_key(path) ==> view.ids.contains_key(path)
            && kept[plan.path_to_id@[path] as int] == view.ids[path],
        view.ids.contains_key(path) && kept.contains(view.ids[path])
            ==> plan.path_to_id@.contains_key(path),
        plan.project_root@ == view.project_root,
{
    let files = file_views(plan.files@);
    assert(files.len() == kept.len());
    assert(files[k] == plan.files@[k]@);
}

/// The records of a compaction are the postings of the lists whose files are kept, under the files'
/// new numbers, each once, in order of trigrams and then of files.
pub proof fn lemma_which_postings_are_kept(
    lists: Map<u32, Seq<Posting>>,
    ids: Map<u32, u32>,
    records: Seq<SpillRecord>,
    trigram: u32,
    i: int,
)
    requires
        are_delta_records(lists, ids, records),
        lists.contains_key(trigram),
        0 <= i < lists[trigram].len(),
    ensures
        ids.contains_key(lists[trigram][i].file_id) ==> records.contains(
            SpillRecord {
                trigram,
                file_id: ids[lists[trigram][i].file_id],
                next_mask: lists[trigram][i].next_mask,
                loc_mask: lists[trigram][i].loc_mask,
            },
        ),
        forall|k: int|
            0 <= k < records.len() ==> lists.contains_key((#[trigger] records[k]).trigram),
        forall|j: int, k: int|
            0 <= j < k < records.len() ==> (#[trigger] records[j]).trigram < (
            #[trigger] records[k]).trigram || (records[j].trigram == records[k].trigram
                && records[j].file_id <= records[k].file_id),
{
    if ids.contains_key(lists[trigram][i].file_id) {
        let record = SpillRecord {
            trigram,
            file_id: ids[lists[trigram][i].file_id],
            next_mask: lists[trigram][i].next_mask,
            loc_mask: lists[trigram][i].loc_mask,
        };
        assert(lists[record.trigram][i] == lists[trigram][i]);
        assert(from_lists(lists, ids, record));
    }
    assert forall|k: int| 0 <= k < records.len() implies lists.contains_key(
        (#[trigger] records[k]).trigram,
    ) by {
        assert(records.contains(records[k]));
        assert(from_lists(lists, ids, records[k]));
    }
}

/// After a compaction nothing is pending: all postings stand on disk, no file is stood for by a newer
/// one, and the files are those of the plan.
pub proof fn lemma_compaction_leaves_nothing_pending(
    before: SnapshotView,
    plan: CacheWritePlan,
    base: (u64, u64, Seq<LookupEntry>),
    base_file_count: u32,
)
    ensures
        ({
            let after = compacted_view(before, plan, base);
            &&& after.base == Some(base)
            &&& after.postings.dom().is_empty()
            &&& after.superseded.is_empty()
            &&& after.files.len() == plan.files@.len()
            &&& forall|i: int|
                0 <= i < after.files.len() ==> #[trigger] after.files[i] == plan.files@[i]@
            &&& after.ids == plan.path_to_id@
            &&& after.file_trigram_count == plan.file_trigram_count@
            &&& after.unindexed == plan.unindexed_files@
            &&& after.project_root == before.project_root && after.ready == before.ready
            &&& plan.path_to_id@.len() == base_file_count ==> !is_pending(after, base_file_count)
        }),
{
    let after = compacted_view(before, plan, base);
    assert(after.postings.dom() =~= Set::empty());
    assert(after.postings =~= Map::empty());
}

/// A compaction is pending where a posting list changed, a file was replaced, or the number of files is
/// another than that of the cache file.
pub proof fn lemma_when_a_compaction_is_pending(view: SnapshotView, base_file_count: u32, trigram: u32)
    ensures
        view.postings.contains_key(trigram) ==> is_pending(view, base_file_count),
        view.superseded.contains(trigram) ==> is_pending(view, base_file_count),
        view.ids.len() != base_file_count ==> is_pending(view, base_file_count),
        is_pending(view, base_file_count) && view.ids.len() == base_file_count
            ==> !(view.postings.dom() =~= Set::empty()) || !(view.superseded =~= Set::empty()),
{
    assert(view.postings.dom() =~= Set::empty() ==> view.postings =~= Map::empty());
}

// ---------------------------------------------------------------------------------------------
// Sizes
// ---------------------------------------------------------------------------------------------

/// Each path counts with the bytes of its text.
pub proof fn lemma_paths_count_with_their_bytes(paths: Seq<PathKey>, path: PathKey)
    ensures
        paths_size(Seq::empty(), 0) == 0,
        paths_size(paths.push(path), paths.len() + 1int) == paths_size(paths, paths.len() as int)
            + path_text(path).len(),
{
    lemma_paths_size_of_front(paths, path, paths.len() as int);
}

proof fn lemma_paths_size_of_front(paths: Seq<PathKey>, path: PathKey, count: int)
    requires
        0 <= count <= paths.len(),
    ensures
        paths_size(paths.push(path), count) == paths_size(paths, count),
    decreases count,
{
    if count > 0 {
        lemma_paths_size_of_front(paths, path, count - 1);
        assert(paths.push(path)[count - 1] == paths[count - 1]);
    }
}

/// A file adds to the table of paths where its path leads to it, and nothing else.
pub proof fn lemma_table_counts_paths_that_lead_to_their_file(
    files: Seq<FileView>,
    ids: Map<PathKey, u32>,
    count: int,
)
    requires
        0 < count <= files.len(),
    ensures
        ({
            let path = files[count - 1].path;
            let grown = table_size(files, ids, count) - table_size(files, ids, count - 1);
            &&& ids.contains_key(path) && ids[path] == count - 1 ==> grown >= path_text(path).len()
            &&& !ids.contains_key(path) ==> grown == 0
            &&& ids.contains_key(path) && ids[path] != count - 1 ==> grown == 0
        }),
{
}

/// A posting that waits for a compaction counts with six bytes, up to the largest size there is.
pub proof fn lemma_waiting_postings_count_with_six_bytes(count: int)
    requires
        0 <= count,
    ensures
        6 * count <= usize::MAX ==> packed_bytes(count) == 6 * count,
        6 * count > usize::MAX ==> packed_bytes(count) == usize::MAX,
{
}

/// A size is told as it is, up to the largest number of 64 bits.
pub proof fn lemma_sizes_are_told(bytes: int)
    requires
        0 <= bytes,
    ensures
        bytes <= 0xffff_ffff_ffff_ffff ==> told(bytes) == bytes,
        bytes > 0xffff_ffff_ffff_ffff ==> told(bytes) == 0xffff_ffff_ffff_ffff,
{
}

/// A path that waits for a compaction to end adds its text and its own size to the memory that an
/// index takes.
pub proof fn lemma_waiting_paths_take_memory(index: SearchIndex, other: SearchIndex, path: SearchPath)
    requires
        other.current == index.current,
        other.delta_file_trigrams == index.delta_file_trigrams,
        other.git_head == index.git_head,
        other.ignore_rules_fingerprint == index.ignore_rules_fingerprint,
        other.compaction.buffered_paths@ == index.compaction.buffered_paths@.push(path),
    ensures
        other.memory_size() == index.memory_size() + size_of::<SearchPath>() + path_text(
            path@,
        ).len(),
{
    let before = path_views(index.compaction.buffered_paths@);
    let after = path_views(other.compaction.buffered_paths@);
    assert(after =~= before.push(path@));
    lemma_paths_count_with_their_bytes(before, path@);
    let (n, size) = (before.len() as int, size_of::<SearchPath>() as int);
    assert((n + 1) * size == n * size + size) by (nonlinear_arith);
}

/// The texts of an index take as much memory as they have bytes.
pub proof fn lemma_texts_take_memory(index: SearchIndex, other: SearchIndex)
    requires
        other.current == index.current,
        other.delta_file_trigrams == index.delta_file_trigrams,
        other.compaction == index.compaction,
        index.git_head is None,
        other.git_head is Some,
    ensures
        other.memory_size() - index.memory_size() == encode_utf8(other.git_head->0@).len()
            + encode_utf8(other.ignore_rules_fingerprint@).len() - encode_utf8(
            index.ignore_rules_fingerprint@,
        ).len(),
{
}

/// What the tables of an index take: a number for each count, each replaced file
/// and each file without postings, and an entry for each trigram on disk.
pub proof fn lemma_tables_take_memory(index: SearchIndex)
    requires
        index.current.delta.superseded@.len() + index.current.unindexed_files@.len() <= usize::MAX,
    ensures
        index.current.base is None ==> index.tables_size() == (
        index.current.file_trigram_count@.len() + (index.current.delta.superseded@.len()
            + index.current.unindexed_files@.len())) * size_of::<u32>(),
        index.current.base matches Some(base) ==> index.tables_size() == (
        index.current.file_trigram_count@.len() + (index.current.delta.superseded@.len()
            + index.current.unindexed_files@.len())) * size_of::<u32>() + base.lookup@.len()
            * size_of::<LookupEntry>(),
{
    let counts = index.current.file_trigram_count@.len() as int;
    let masks = (index.current.delta.superseded@.len() + index.current.unindexed_files@.len()) as int;
    let size = size_of::<u32>() as int;
    assert((counts + masks) * size == counts * size + masks * size) by (nonlinear_arith);
}

} // verus!
