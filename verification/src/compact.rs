//! Folding the changes since a cache file was written into a new one.

use crate::cache_read::text_option;
use crate::file_entry::file_views;
use crate::file_entry::FileEntry;
use crate::format::is_cache_of;
use crate::format::write_cache_from_sources;
use crate::format::write_error;
use crate::format::CacheWriteError;
use crate::format::CacheWritePlan;
use crate::format::EncodedCache;
use crate::index::SearchIndex;
use crate::merge::lookup_records;
use crate::merge::sources_well_formed;
use crate::merge::BaseRecordSource;
use crate::merge::RecordSource;
use crate::merge::VecRecordSource;
use crate::order::strictly_ascending;
use crate::path::PathKey;
use crate::path::SearchPath;
use crate::path_table::PathTable;
use crate::postings::ascending_postings;
use crate::postings::BasePostings;
use crate::postings::LookupEntry;
use crate::postings::Posting;
use crate::postings::PostingReads;
use crate::records::records_sorted;
use crate::records::sort_records;
use crate::records::SpillRecord;
use crate::snapshot::clone_ids;
use crate::snapshot::list_views;
use crate::snapshot::DeltaState;
use crate::snapshot::SnapshotView;
use std::collections::HashMap;
use std::collections::HashSet;
use vstd::prelude::*;
use vstd::std_specs::iter::IteratorSpec;

verus! {

/// The files among the first `count` slots that count and that a path leads to, in ascending order.
pub open spec fn kept_upto(view: SnapshotView, count: int) -> Seq<u32>
    decreases count,
{
    if count <= 0 {
        Seq::empty()
    } else {
        let earlier = kept_upto(view, count - 1);
        let id = (count - 1) as u32;
        if view.active(id) && view.listed(id) {
            earlier.push(id)
        } else {
            earlier
        }
    }
}

/// The files that a new cache file keeps. The place of a file in this list is its new id.
pub open spec fn kept_ids(view: SnapshotView) -> Seq<u32> {
    kept_upto(view, view.files.len() as int)
}

pub proof fn lemma_kept_upto(view: SnapshotView, count: int)
    requires
        0 <= count <= view.files.len(),
        count <= u32::MAX + 1,
    ensures
        strictly_ascending(kept_upto(view, count)),
        kept_upto(view, count).len() <= count,
        forall|id: u32| #[trigger]
            kept_upto(view, count).contains(id) <==> id < count && view.active(id) && view.listed(
                id,
            ),
    decreases count,
{
    if count > 0 {
        lemma_kept_upto(view, count - 1);
        let earlier = kept_upto(view, count - 1);
        let kept = kept_upto(view, count);
        let last = (count - 1) as u32;
        assert forall|i: int| 0 <= i < earlier.len() implies #[trigger] earlier[i] < last by {
            assert(earlier.contains(earlier[i]));
        }
        assert forall|id: u32| #[trigger] kept.contains(id) <==> id < count && view.active(id)
            && view.listed(id) by {
            assert(earlier.contains(id) <==> id < count - 1 && view.active(id) && view.listed(id));
            if earlier.contains(id) {
                let k = earlier.index_of(id);
                assert(kept[k] == id);
            }
            if kept.contains(id) && !earlier.contains(id) {
                let k = kept.index_of(id);
                if k < earlier.len() {
                    assert(earlier[k] == id);
                }
            }
            if kept.len() > earlier.len() {
                assert(kept[earlier.len() as int] == last);
            }
        }
    }
}

/// `ids` leads from each file of `kept` to its place there.
pub open spec fn numbers(ids: Map<u32, u32>, kept: Seq<u32>) -> bool {
    &&& forall|id: u32| #[trigger] ids.contains_key(id) <==> kept.contains(id)
    &&& forall|id: u32| #[trigger]
        ids.contains_key(id) ==> ids[id] < kept.len() && kept[ids[id] as int] == id
}

pub open spec fn count_at(counts: Seq<u32>, id: u32) -> u32 {
    if id < counts.len() {
        counts[id as int]
    } else {
        0
    }
}

impl CacheWritePlan {
    /// The plan keeps the files `kept` of `view`, under their new ids.
    pub open spec fn keeps(&self, view: SnapshotView, kept: Seq<u32>) -> bool {
        &&& self.project_root@ == view.project_root
        &&& file_views(self.files@) == Seq::new(kept.len(), |k: int| view.files[kept[k] as int])
        &&& self.path_to_id.well_formed()
        &&& forall|p: PathKey| #[trigger]
            self.path_to_id@.contains_key(p) <==> view.ids.contains_key(p) && kept.contains(
                view.ids[p],
            )
        &&& forall|p: PathKey| #[trigger]
            self.path_to_id@.contains_key(p) ==> self.path_to_id@[p] < kept.len()
                && kept[self.path_to_id@[p] as int] == view.ids[p]
        &&& self.unindexed_files@ == Set::new(
            |id: u32| id < kept.len() && view.unindexed.contains(kept[id as int]),
        )
        &&& self.file_trigram_count@ == Seq::new(
            kept.len(),
            |k: int| count_at(view.file_trigram_count, kept[k]),
        )
        &&& numbers(self.id_map@, kept)
    }

    /// What a new cache file of `index` is to hold. An index without a fingerprint of its own takes
    /// the current one.
    pub fn from_index(
        index: &SearchIndex,
        git_head: Option<String>,
        current_fingerprint: String,
    ) -> (plan: CacheWritePlan)
        requires
            index.well_formed(),
        ensures
            plan.keeps(index.current@, kept_ids(index.current@)),
            text_option(plan.git_head) == text_option(git_head),
            plan.ignore_fingerprint@ == (if index.ignore_rules_fingerprint@.len() == 0 {
                current_fingerprint@
            } else {
                index.ignore_rules_fingerprint@
            }),
            plan.max_file_size == index.max_file_size,
    {
        broadcast use vstd::std_specs::hash::group_hash_axioms;

        let ghost view = index.current@;
        let ghost kept = kept_ids(view);
        let active_ids = index.current.active_file_ids();
        proof {
            lemma_kept_upto(view, view.files.len() as int);
            assert forall|id: u32| active_ids@.contains(id) <==> kept.contains(id) by {}
            crate::order::lemma_ascending_lists_are_determined(active_ids@, kept);
        }
        let mut id_map: HashMap<u32, u32> = HashMap::new();
        let mut files: Vec<FileEntry> = Vec::with_capacity(active_ids.len());
        let mut path_to_id = PathTable::new();
        let mut unindexed_files: HashSet<u32> = HashSet::new();
        let mut file_trigram_count: Vec<u32> = Vec::with_capacity(active_ids.len());
        let mut k: usize = 0;
        while k < active_ids.len()
            invariant
                index.well_formed(),
                view == index.current@,
                active_ids@ == kept,
                strictly_ascending(kept),
                kept.len() <= view.files.len(),
                forall|id: u32| #[trigger]
                    kept.contains(id) ==> id < view.files.len() && view.active(id)
                        && view.listed(id),
                k <= kept.len(),
                files@.len() == k,
                forall|m: int|
                    0 <= m < k ==> (#[trigger] files@[m])@ == view.files[kept[m] as int],
                path_to_id.well_formed(),
                path_to_id@.len() <= k,
                forall|p: PathKey| #[trigger]
                    path_to_id@.contains_key(p) <==> view.ids.contains_key(p) && kept.take(
                        k as int,
                    ).contains(view.ids[p]),
                forall|p: PathKey| #[trigger]
                    path_to_id@.contains_key(p) ==> path_to_id@[p] < k
                        && kept[path_to_id@[p] as int] == view.ids[p],
                forall|id: u32| #[trigger]
                    unindexed_files@.contains(id) <==> id < k && view.unindexed.contains(
                        kept[id as int],
                    ),
                file_trigram_count@.len() == k,
                forall|m: int|
                    0 <= m < k ==> #[trigger] file_trigram_count@[m] == count_at(
                        view.file_trigram_count,
                        kept[m],
                    ),
                numbers(id_map@, kept.take(k as int)),
            decreases kept.len() - k,
        {
            let old_id: u32 = active_ids[k];
            let new_id: u32 = k as u32;
            let ghost done = kept.take(k as int);
            let ghost next = kept.take(k + 1);
            proof {
                assert(kept.contains(kept[k as int]));
                assert(new_id == k);
                assert forall|id: u32| next.contains(id) <==> done.contains(id) || id
                    == old_id by {
                    if done.contains(id) {
                        let m = done.index_of(id);
                        assert(next[m] == id);
                    }
                    assert(next[k as int] == old_id);
                    if next.contains(id) && id != old_id {
                        let m = next.index_of(id);
                        assert(done[m] == id);
                    }
                }
                assert(!done.contains(old_id)) by {
                    if done.contains(old_id) {
                        let m = done.index_of(old_id);
                        assert(kept[m] < kept[k as int]);
                    }
                }
            }
            let slot: usize = old_id as usize;
            let file = index.current.files[slot].duplicate();
            let ghost path = file.path@;
            proof {
                let p = choose|p: PathKey| #[trigger]
                    view.ids.contains_key(p) && view.ids[p] == old_id;
                assert(index.current.path_to_id@.contains_key(p));
                assert(p == path);
            }
            let ghost before = path_to_id@;
            proof {
                path_to_id.lemma_finite();
            }
            path_to_id.insert(file.path.duplicate(), new_id);
            if index.current.unindexed_files.contains(&old_id) {
                unindexed_files.insert(new_id);
            }
            let count: u32 = if slot < index.current.file_trigram_count.len() {
                index.current.file_trigram_count[slot]
            } else {
                0
            };
            file_trigram_count.push(count);
            files.push(file);
            id_map.insert(old_id, new_id);
            proof {
                assert(path_to_id@.dom() =~= before.dom().insert(path));
                assert forall|p: PathKey| #[trigger] path_to_id@.contains_key(p) <==>
                    view.ids.contains_key(p) && next.contains(view.ids[p]) by {
                    assert(before.contains_key(p) <==> view.ids.contains_key(p) && done.contains(
                        view.ids[p],
                    ));
                    if view.ids.contains_key(p) && view.ids[p] == old_id {
                        assert(index.current.path_to_id@.contains_key(p));
                        assert(p == path);
                    }
                }
                assert forall|id: u32| #[trigger] id_map@.contains_key(id) implies id_map@[id]
                    < next.len() && next[id_map@[id] as int] == id by {
                    if id != old_id {
                        assert(done[id_map@[id] as int] == id);
                    }
                }
            }
            k += 1;
        }
        proof {
            assert(kept.take(k as int) =~= kept);
            assert(file_views(files@) =~= Seq::new(
                kept.len(),
                |k: int| view.files[kept[k] as int],
            ));
            assert(unindexed_files@ =~= Set::new(
                |id: u32| id < kept.len() && view.unindexed.contains(kept[id as int]),
            ));
            assert(file_trigram_count@ =~= Seq::new(
                kept.len(),
                |k: int| count_at(view.file_trigram_count, kept[k]),
            ));
        }
        let own = index.ignore_rules_fingerprint.clone();
        let ignore_fingerprint: String = if own.as_str().is_empty() {
            proof {
                lemma_empty_bytes(own@);
            }
            current_fingerprint
        } else {
            proof {
                lemma_empty_bytes(own@);
            }
            own
        };
        CacheWritePlan {
            project_root: index.current.project_root.duplicate(),
            git_head,
            ignore_fingerprint,
            max_file_size: index.max_file_size,
            files,
            path_to_id,
            unindexed_files,
            file_trigram_count,
            id_map,
        }
    }
}

proof fn lemma_empty_bytes(text: Seq<char>)
    ensures
        vstd::utf8::encode_utf8(text).len() == 0 <==> text.len() == 0,
{
    if text.len() > 0 {
        vstd::utf8::encode_utf8_first_scalar(text);
    } else {
        assert(text =~= Seq::<char>::empty());
    }
}

// ---------------------------------------------------------------------------------------------
// Record sources
// ---------------------------------------------------------------------------------------------

/// A posting of `trigram` under its new id.
pub open spec fn renumbered(trigram: u32, posting: Posting, ids: Map<u32, u32>) -> SpillRecord {
    SpillRecord {
        trigram,
        file_id: ids[posting.file_id],
        next_mask: posting.next_mask,
        loc_mask: posting.loc_mask,
    }
}

/// `record` stands for a posting of `lists` of a file that is kept.
pub open spec fn from_lists(
    lists: Map<u32, Seq<Posting>>,
    ids: Map<u32, u32>,
    record: SpillRecord,
) -> bool {
    exists|i: int|
        {
            &&& lists.contains_key(record.trigram)
            &&& 0 <= i < lists[record.trigram].len()
            &&& ids.contains_key((#[trigger] lists[record.trigram][i]).file_id)
            &&& record == renumbered(record.trigram, lists[record.trigram][i], ids)
        }
}

/// The records of the postings of `lists`, each once, by trigram and file.
pub open spec fn are_delta_records(
    lists: Map<u32, Seq<Posting>>,
    ids: Map<u32, u32>,
    records: Seq<SpillRecord>,
) -> bool {
    &&& records_sorted(records)
    &&& records.no_duplicates()
    &&& forall|r: SpillRecord| #[trigger] records.contains(r) <==> from_lists(lists, ids, r)
}

/// The keys of a map, each once.
pub fn list_keys<T>(lists: &HashMap<u32, T>) -> (keys: Vec<u32>)
    ensures
        keys@.no_duplicates(),
        forall|t: u32| #[trigger] keys@.contains(t) <==> lists@.contains_key(t),
{
    broadcast use vstd::std_specs::hash::group_hash_axioms;

    let mut keys: Vec<u32> = Vec::new();
    let iter = lists.keys();
    let ghost all = iter.remaining();
    for key in it: iter
        invariant
            it.seq() == all,
            keys@ == all.take(it.index() as int).unref(),
    {
        keys.push(*key);
        proof {
            let k = it.index() as int;
            assert(all.take(k + 1).unref() =~= all.take(k).unref().push(*all[k]));
        }
    }
    proof {
        assert(all.take(all.len() as int) =~= all);
        assert(all.unref().to_set() == lists@.dom());
        assert forall|t: u32| #[trigger] keys@.contains(t) <==> lists@.contains_key(t) by {
            assert(keys@.contains(t) <==> keys@.to_set().contains(t));
        }
        assert forall|i: int, j: int| 0 <= i < keys@.len() && 0 <= j < keys@.len() && i
            != j implies keys@[i] != keys@[j] by {
            assert(all[i] != all[j]);
        }
    }
    keys
}

/// Records of `lists` for the trigrams in `done`, and for the first `count` postings of `trigram`.
spec fn partly(
    lists: Map<u32, Seq<Posting>>,
    ids: Map<u32, u32>,
    done: Seq<u32>,
    trigram: u32,
    count: int,
    record: SpillRecord,
) -> bool {
    (done.contains(record.trigram) && from_lists(lists, ids, record)) || (record.trigram == trigram
        && exists|i: int|
        {
            &&& 0 <= i < count
            &&& ids.contains_key((#[trigger] lists[trigram][i]).file_id)
            &&& record == renumbered(trigram, lists[trigram][i], ids)
        })
}

/// The postings since the cache file was written, of files that are kept.
pub fn delta_records(postings: &HashMap<u32, Vec<Posting>>, id_map: &HashMap<u32, u32>) -> (
    records: Vec<SpillRecord>)
    requires
        forall|t: u32| #[trigger]
            postings@.contains_key(t) ==> ascending_postings(postings@[t]@),
        forall|a: u32, b: u32|
            #![trigger id_map@[a], id_map@[b]]
            id_map@.contains_key(a) && id_map@.contains_key(b) && id_map@[a] == id_map@[b] ==> a
                == b,
    ensures
        are_delta_records(list_views(postings@), id_map@, records@),
{
    broadcast use vstd::std_specs::hash::group_hash_axioms;

    let ghost lists = list_views(postings@);
    let ghost ids = id_map@;
    let keys = list_keys(postings);
    let mut records: Vec<SpillRecord> = Vec::new();
    let mut k: usize = 0;
    while k < keys.len()
        invariant
            lists == list_views(postings@),
            ids == id_map@,
            keys@.no_duplicates(),
            forall|t: u32| #[trigger] keys@.contains(t) <==> postings@.contains_key(t),
            forall|t: u32| #[trigger]
                postings@.contains_key(t) ==> ascending_postings(postings@[t]@),
            forall|a: u32, b: u32|
                #![trigger ids[a], ids[b]]
                ids.contains_key(a) && ids.contains_key(b) && ids[a] == ids[b] ==> a == b,
            k <= keys@.len(),
            records@.no_duplicates(),
            forall|r: SpillRecord| #[trigger]
                records@.contains(r) <==> keys@.take(k as int).contains(r.trigram) && from_lists(
                    lists,
                    ids,
                    r,
                ),
        decreases keys@.len() - k,
    {
        let trigram: u32 = keys[k];
        let ghost done = keys@.take(k as int);
        proof {
            assert(keys@.contains(keys@[k as int]));
            assert(!done.contains(trigram)) by {
                if done.contains(trigram) {
                    let m = done.index_of(trigram);
                    assert(keys@[m] == keys@[k as int]);
                }
            }
        }
        if let Some(list) = postings.get(&trigram) {
            let ghost whole = lists[trigram];
            assert(list@ == whole);
            assert(ascending_postings(postings@[trigram]@));
            let mut i: usize = 0;
            while i < list.len()
                invariant
                    lists == list_views(postings@),
                    ids == id_map@,
                    lists.contains_key(trigram),
                    whole == lists[trigram],
                    list@ == whole,
                    ascending_postings(whole),
                    !done.contains(trigram),
                    forall|a: u32, b: u32|
                        #![trigger ids[a], ids[b]]
                        ids.contains_key(a) && ids.contains_key(b) && ids[a] == ids[b] ==> a == b,
                    i <= list@.len(),
                    records@.no_duplicates(),
                    forall|r: SpillRecord| #[trigger]
                        records@.contains(r) <==> partly(lists, ids, done, trigram, i as int, r),
                decreases list@.len() - i,
            {
                let posting: Posting = list[i];
                let ghost before = records@;
                if let Some(file_id) = id_map.get(&posting.file_id) {
                    let record = SpillRecord {
                        trigram,
                        file_id: *file_id,
                        next_mask: posting.next_mask,
                        loc_mask: posting.loc_mask,
                    };
                    proof {
                        assert(record == renumbered(trigram, whole[i as int], ids));
                        assert(!before.contains(record)) by {
                            if before.contains(record) {
                                assert(partly(lists, ids, done, trigram, i as int, record));
                                let m = choose|m: int|
                                    {
                                        &&& 0 <= m < i
                                        &&& ids.contains_key(
                                            (#[trigger] lists[trigram][m]).file_id,
                                        )
                                        &&& record == renumbered(trigram, lists[trigram][m], ids)
                                    };
                                assert(whole[m].file_id < whole[i as int].file_id);
                                assert(ids[whole[m].file_id] == ids[whole[i as int].file_id]);
                            }
                        }
                    }
                    records.push(record);
                }
                proof {
                    assert forall|r: SpillRecord| #[trigger] records@.contains(r) <==> partly(
                        lists,
                        ids,
                        done,
                        trigram,
                        i + 1,
                        r,
                    ) by {
                        assert(before.contains(r) <==> partly(
                            lists,
                            ids,
                            done,
                            trigram,
                            i as int,
                            r,
                        ));
                        if before.contains(r) {
                            let m = before.index_of(r);
                            assert(records@[m] == r);
                        }
                        if records@.contains(r) && !before.contains(r) {
                            let m = records@.index_of(r);
                            if m < before.len() {
                                assert(before[m] == r);
                            }
                            assert(r == renumbered(trigram, lists[trigram][i as int], ids));
                            assert(ids.contains_key(lists[trigram][i as int].file_id));
                        }
                        if partly(lists, ids, done, trigram, i + 1, r) && !before.contains(r) {
                            let m = choose|m: int|
                                {
                                    &&& 0 <= m < i + 1
                                    &&& ids.contains_key((#[trigger] lists[trigram][m]).file_id)
                                    &&& r == renumbered(trigram, lists[trigram][m], ids)
                                };
                            if m < i {
                                assert(partly(lists, ids, done, trigram, i as int, r));
                            }
                            assert(m == i);
                            assert(records@[before.len() as int] == r);
                        }
                    }
                }
                i += 1;
            }
            proof {
                let next = keys@.take(k + 1);
                assert forall|r: SpillRecord| #[trigger] records@.contains(r) <==> next.contains(
                    r.trigram,
                ) && from_lists(lists, ids, r) by {
                    assert(next.contains(r.trigram) <==> done.contains(r.trigram) || r.trigram
                        == trigram) by {
                        if done.contains(r.trigram) {
                            let m = done.index_of(r.trigram);
                            assert(next[m] == r.trigram);
                        }
                        assert(next[k as int] == trigram);
                        if next.contains(r.trigram) && r.trigram != trigram {
                            let m = next.index_of(r.trigram);
                            assert(done[m] == r.trigram);
                        }
                    }
                    assert(records@.contains(r) <==> partly(
                        lists,
                        ids,
                        done,
                        trigram,
                        list@.len() as int,
                        r,
                    ));
                    if r.trigram == trigram {
                        if from_lists(lists, ids, r) {
                            let m = choose|m: int|
                                {
                                    &&& 0 <= m < lists[r.trigram].len()
                                    &&& ids.contains_key(
                                        (#[trigger] lists[r.trigram][m]).file_id,
                                    )
                                    &&& r == renumbered(r.trigram, lists[r.trigram][m], ids)
                                };
                            assert(ids.contains_key(lists[trigram][m].file_id));
                        }
                    }
                }
            }
        }
        k += 1;
    }
    let sorted = sort_records(&records);
    proof {
        records@.lemma_multiset_has_no_duplicates();
        sorted@.lemma_multiset_has_no_duplicates_conv();
        records@.to_multiset_ensures();
        sorted@.to_multiset_ensures();
        assert forall|r: SpillRecord| #[trigger] sorted@.contains(r) <==> from_lists(
            lists,
            ids,
            r,
        ) by {
            assert(sorted@.contains(r) <==> sorted@.to_multiset().count(r) > 0);
            assert(records@.contains(r) <==> records@.to_multiset().count(r) > 0);
            assert(keys@.take(k as int) =~= keys@);
            if from_lists(lists, ids, r) {
                assert(postings@.contains_key(r.trigram));
                assert(keys@.contains(r.trigram));
            }
        }
    }
    sorted
}

/// What the sources of a compaction hold: first the posting lists of the old cache file, where there
/// is one, then the postings since, where there are any.
pub open spec fn compaction_streams(
    base: Option<Seq<SpillRecord>>,
    delta: Seq<SpillRecord>,
) -> Seq<Seq<SpillRecord>> {
    let front = match base {
        Some(records) => seq![records],
        None => Seq::empty(),
    };
    if delta.len() > 0 {
        front.push(delta)
    } else {
        front
    }
}

/// The records of the old cache file, under new ids.
pub open spec fn base_records(
    view: SnapshotView,
    reads: PostingReads,
    ids: Map<u32, u32>,
) -> Option<(Seq<SpillRecord>, bool)> {
    match view.base {
        Some(base) => Some(lookup_records(base.2, reads.lists@, view.superseded, ids, 0)),
        None => None,
    }
}

pub open spec fn base_stream(view: SnapshotView, reads: PostingReads, ids: Map<u32, u32>) -> Option<
    Seq<SpillRecord>,
> {
    match base_records(view, reads, ids) {
        Some(records) => Some(records.0),
        None => None,
    }
}

/// All lists of the old cache file could be read.
pub open spec fn base_sound(view: SnapshotView, reads: PostingReads, ids: Map<u32, u32>) -> bool {
    match base_records(view, reads, ids) {
        Some(records) => records.1,
        None => true,
    }
}

impl SearchIndex {
    /// The sources of a compaction.
    pub fn compaction_record_sources(&self, id_map: &HashMap<u32, u32>, reads: PostingReads) -> (
        sources: Vec<RecordSource>)
        requires
            self.well_formed(),
            forall|a: u32, b: u32|
                #![trigger id_map@[a], id_map@[b]]
                id_map@.contains_key(a) && id_map@.contains_key(b) && id_map@[a] == id_map@[b] ==> a
                    == b,
        ensures
            sources_well_formed(sources@),
            crate::merge::sources_sound(sources@) == base_sound(self.current@, reads, id_map@),
            exists|delta: Seq<SpillRecord>| #[trigger]
                are_delta_records(self.current@.postings, id_map@, delta)
                    && crate::merge::source_streams(sources@) == compaction_streams(
                    base_stream(self.current@, reads, id_map@),
                    delta,
                ),
    {
        let mut sources: Vec<RecordSource> = Vec::new();
        match &self.current.base {
            Some(base) => {
                let lookup = base.lookup.clone();
                assert(lookup@ =~= base.lookup@);
                sources.push(
                    RecordSource::Base(
                        BaseRecordSource::new(
                            lookup,
                            reads,
                            clone_ids(&self.current.delta.superseded),
                            id_map.clone(),
                        ),
                    ),
                );
            },
            None => {},
        }
        let ghost base_only = sources@;
        proof {
            assert(sources@.len() <= 1);
            assert(crate::merge::source_streams(sources@) =~= compaction_streams(
                base_stream(self.current@, reads, id_map@),
                Seq::empty(),
            ));
        }
        let records = delta_records(&self.current.delta.postings, id_map);
        let ghost delta = records@;
        if records.len() > 0 {
            let source = VecRecordSource::new(records);
            assert(source.records@.skip(0) =~= delta);
            sources.push(RecordSource::Records(source));
        }
        proof {
            assert(crate::merge::source_streams(sources@) =~= compaction_streams(
                base_stream(self.current@, reads, id_map@),
                delta,
            ));
            assert(are_delta_records(self.current@.postings, id_map@, delta));
            let sound = base_sound(self.current@, reads, id_map@);
            assert forall|i: int| 0 <= i < sources@.len() implies (
            #[trigger] sources@[i]).well_formed() by {
                if i < base_only.len() {
                    assert(sources@[i] == base_only[i]);
                }
            }
            if sound {
                assert forall|i: int| 0 <= i < sources@.len() implies (
                #[trigger] sources@[i]).stream().1 by {
                    if i < base_only.len() {
                        assert(sources@[i] == base_only[i]);
                    }
                }
            } else {
                assert(!sources@[0].stream().1);
            }
        }
        sources
    }
}


// ---------------------------------------------------------------------------------------------
// Writing
// ---------------------------------------------------------------------------------------------

/// The index after its cache file was written: all postings stand there.
pub open spec fn compacted_view(
    before: SnapshotView,
    plan: CacheWritePlan,
    base: (u64, u64, Seq<LookupEntry>),
) -> SnapshotView {
    SnapshotView {
        base: Some(base),
        postings: Map::empty(),
        superseded: Set::empty(),
        files: file_views(plan.files@),
        ids: plan.path_to_id@,
        file_trigram_count: plan.file_trigram_count@,
        unindexed: plan.unindexed_files@,
        ..before
    }
}

/// Every file that is kept has a path that leads to it.
pub proof fn lemma_compacted_files_are_listed(
    before: SnapshotView,
    plan: CacheWritePlan,
    base: (u64, u64, Seq<LookupEntry>),
)
    requires
        before.files.len() <= u32::MAX + 1,
        plan.keeps(before, kept_ids(before)),
    ensures
        compacted_view(before, plan, base).all_listed(),
{
    let after = compacted_view(before, plan, base);
    let kept = kept_ids(before);
    lemma_kept_upto(before, before.files.len() as int);
    assert forall|id: u32| #[trigger] after.active(id) implies after.listed(id) by {
        let old_id = kept[id as int];
        assert(kept.contains(old_id));
        let p = choose|p: PathKey| #[trigger] before.ids.contains_key(p) && before.ids[p] == old_id;
        assert(plan.path_to_id@.contains_key(p));
        assert(kept[plan.path_to_id@[p] as int] == old_id);
        assert(after.ids.contains_key(p) && after.ids[p] == id);
    }
}

proof fn lemma_numbers_are_distinct(ids: Map<u32, u32>, kept: Seq<u32>)
    requires
        numbers(ids, kept),
    ensures
        forall|a: u32, b: u32|
            #![trigger ids[a], ids[b]]
            ids.contains_key(a) && ids.contains_key(b) && ids[a] == ids[b] ==> a == b,
{
}

/// The index holds what the cache file does not, or lacks what it holds.
pub open spec fn is_pending(view: SnapshotView, base_file_count: u32) -> bool {
    !view.postings.is_empty() || !view.superseded.is_empty() || view.ids.len() != base_file_count
}

impl SearchIndex {
    /// The cache file that a plan of this index asks for. `canonical_paths` holds the canonical form
    /// of each planned file's path, where there is one; `reads` the posting lists of the old cache
    /// file.
    pub fn encode_cache(
        &self,
        plan: &CacheWritePlan,
        canonical_paths: &Vec<Option<SearchPath>>,
        reads: PostingReads,
    ) -> (result: Result<EncodedCache, CacheWriteError>)
        requires
            self.well_formed(),
            plan.keeps(self.current@, kept_ids(self.current@)),
            canonical_paths@.len() == plan.files@.len(),
        ensures
            exists|delta: Seq<SpillRecord>|
                {
                    let records = crate::merge::merged(
                        compaction_streams(base_stream(self.current@, reads, plan.id_map@), delta),
                    );
                    let writable = {
                        &&& plan.header_fits(canonical_paths@)
                        &&& base_sound(self.current@, reads, plan.id_map@)
                        &&& crate::merge::lookup_fits(records)
                        &&& plan.file_trigram_count@.len() <= u32::MAX
                        &&& crate::merge::lookup_of(records).len() <= u32::MAX
                    };
                    &&& #[trigger] are_delta_records(self.current@.postings, plan.id_map@, delta)
                    &&& match result {
                        Ok(encoded) => writable && is_cache_of(
                            encoded,
                            plan.header(canonical_paths@),
                            records,
                            plan.file_trigram_count@,
                        ),
                        Err(error) => !writable && write_error(
                            *plan,
                            canonical_paths@,
                            records,
                            base_sound(self.current@, reads, plan.id_map@),
                            error,
                        ),
                    }
                },
            result matches Ok(encoded) ==> encoded.base.well_formed(),
    {
        proof {
            lemma_numbers_are_distinct(plan.id_map@, kept_ids(self.current@));
        }
        let mut sources = self.compaction_record_sources(&plan.id_map, reads);
        let ghost delta = choose|delta: Seq<SpillRecord>| #[trigger]
            are_delta_records(self.current@.postings, plan.id_map@, delta)
                && crate::merge::source_streams(sources@) == compaction_streams(
                base_stream(self.current@, reads, plan.id_map@),
                delta,
            );
        let result = write_cache_from_sources(plan, canonical_paths, &mut sources);
        proof {
            crate::compact_laws::lemma_compaction_is_grouped(
                self.current@,
                reads,
                plan.id_map@,
                delta,
            );
            crate::merge_laws::lemma_lookup_is_ascending(
                crate::merge::merged(
                    compaction_streams(base_stream(self.current@, reads, plan.id_map@), delta),
                ),
            );
        }
        result
    }

    /// Takes the written cache file into use.
    pub fn install_cache(&mut self, plan: CacheWritePlan, base: BasePostings)
        requires
            old(self).well_formed(),
            plan.keeps(old(self).current@, kept_ids(old(self).current@)),
            base.well_formed(),
        ensures
            final(self).well_formed(),
            final(self).current@.all_listed(),
            final(self).current@ == compacted_view(old(self).current@, plan, base@),
            final(self).delta_file_trigrams@ == Map::<u32, Vec<u32>>::empty(),
            final(self).delta_packed_bytes == 0,
            final(self).base_file_count == (if plan.files@.len() > u32::MAX {
                u32::MAX as int
            } else {
                plan.files@.len() as int
            }),
            text_option(final(self).git_head) == (match plan.git_head {
                Some(head) => if head@.len() > 0 {
                    Some(head@)
                } else {
                    None
                },
                None => None,
            }),
            final(self).ignore_rules_fingerprint@ == plan.ignore_fingerprint@,
            final(self).max_file_size == old(self).max_file_size,
            final(self).build_denied == old(self).build_denied,
            final(self).compaction == old(self).compaction,
    {
        let ghost view = self.current@;
        let ghost kept = kept_ids(view);
        let ghost before = self.current;
        let file_count: u32 = if plan.files.len() as u64 > u32::MAX as u64 {
            u32::MAX
        } else {
            plan.files.len() as u32
        };
        self.current.base = Some(base);
        self.current.delta = DeltaState { postings: HashMap::new(), superseded: HashSet::new() };
        self.delta_file_trigrams.clear();
        self.delta_packed_bytes = 0;
        self.base_file_count = file_count;
        self.current.files = plan.files;
        self.current.path_to_id = plan.path_to_id;
        self.current.unindexed_files = plan.unindexed_files;
        self.current.file_trigram_count = plan.file_trigram_count;
        self.git_head = match plan.git_head {
            Some(head) => {
                proof {
                    lemma_empty_bytes(head@);
                }
                if head.as_str().is_empty() {
                    None
                } else {
                    Some(head)
                }
            },
            None => None,
        };
        self.ignore_rules_fingerprint = plan.ignore_fingerprint;
        proof {
            lemma_kept_upto(view, view.files.len() as int);
            assert(self.current@.postings =~= Map::empty());
            assert(self.current.files@.len() == file_views(self.current.files@).len());
            assert forall|p: PathKey| #[trigger]
                self.current.path_to_id@.contains_key(p) implies self.current.path_to_id@[p]
                < self.current.files@.len() && self.current.files@[self.current.path_to_id@[p] as int].path@
                == p by {
                let k = self.current.path_to_id@[p] as int;
                assert(file_views(self.current.files@)[k] == view.files[kept[k] as int]);
                assert(before.path_to_id@.contains_key(p));
            }
            lemma_compacted_files_are_listed(view, plan, base@);
        }
    }

    /// Some change is not in the cache file yet. Deletions count, and so do files without postings.
    pub fn has_pending_disk_changes(&self) -> (pending: bool)
        requires
            self.well_formed(),
        ensures
            pending == is_pending(self.current@, self.base_file_count),
    {
        broadcast use vstd::std_specs::hash::group_hash_axioms;

        proof {
            assert(self.current.delta.postings@.is_empty() == self.current@.postings.is_empty()) by {
                assert(self.current@.postings.dom() =~= self.current.delta.postings@.dom());
            }
        }
        !self.current.delta.postings.is_empty() || !self.current.delta.superseded.is_empty()
            || self.current.path_to_id.len() as u64 != self.base_file_count as u64
    }
}

} // verus!
