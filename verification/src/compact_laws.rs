//! Laws of compaction: a new cache file answers every search as the old one and the changes since
//! did together.

use crate::compact::are_delta_records;
use crate::compact::base_sound;
use crate::compact::base_stream;
use crate::compact::compacted_view;
use crate::compact::compaction_streams;
use crate::compact::from_lists;
use crate::compact::kept_ids;
use crate::compact::lemma_kept_upto;
use crate::compact::numbers;
use crate::compact::renumbered;
use crate::format::CacheWritePlan;
use crate::merge::kept_records;
use crate::merge::lookup_fits;
use crate::merge::lookup_of;
use crate::merge::lookup_records;
use crate::merge::merged;
use crate::merge_laws::all_records;
use crate::merge_laws::lemma_lookup_leads_to_lists;
use crate::merge_laws::lemma_merge_groups_trigrams;
use crate::merge_laws::lemma_merge_keeps_records;
use crate::merge_laws::trigrams_sorted;
use crate::path::PathKey;
use crate::postings::ascending_lookup;
use crate::postings::entry_for;
use crate::postings::lookup_holds;
use crate::postings::passes_filter;
use crate::postings::postings_of;
use crate::postings::LookupEntry;
use crate::postings::Posting;
use crate::postings::PostingReads;
use crate::query::RegexQuery;
use crate::records::record_bytes;
use crate::records::record_postings;
use crate::records::SpillRecord;
use crate::snapshot::filter_for;
use crate::snapshot::group_filter;
use crate::snapshot::list_matches;
use crate::snapshot::SnapshotView;
use crate::trigram::PostingFilter;
use vstd::prelude::*;

verus! {

// ---------------------------------------------------------------------------------------------
// Records of the old cache file
// ---------------------------------------------------------------------------------------------

/// `record` stands for a posting of `postings` that still counts, of a file that is kept.
spec fn from_postings(
    postings: Seq<Posting>,
    superseded: Set<u32>,
    ids: Map<u32, u32>,
    record: SpillRecord,
) -> bool {
    exists|i: int|
        {
            &&& 0 <= i < postings.len()
            &&& !superseded.contains((#[trigger] postings[i]).file_id)
            &&& ids.contains_key(postings[i].file_id)
            &&& record == renumbered(record.trigram, postings[i], ids)
        }
}

proof fn lemma_kept_records(
    postings: Seq<Posting>,
    trigram: u32,
    superseded: Set<u32>,
    ids: Map<u32, u32>,
    record: SpillRecord,
)
    ensures
        kept_records(postings, trigram, superseded, ids).contains(record) <==> record.trigram
            == trigram && from_postings(postings, superseded, ids, record),
        forall|i: int|
            0 <= i < kept_records(postings, trigram, superseded, ids).len() ==> (
            #[trigger] kept_records(postings, trigram, superseded, ids)[i]).trigram == trigram,
    decreases postings.len(),
{
    let records = kept_records(postings, trigram, superseded, ids);
    if postings.len() > 0 {
        let prev = postings.drop_last();
        let last = postings.last();
        let earlier = kept_records(prev, trigram, superseded, ids);
        lemma_kept_records(prev, trigram, superseded, ids, record);
        assert(last == postings[postings.len() - 1]);
        if earlier.contains(record) {
            let k = earlier.index_of(record);
            assert(records[k] == record);
            let i = choose|i: int|
                {
                    &&& 0 <= i < prev.len()
                    &&& !superseded.contains((#[trigger] prev[i]).file_id)
                    &&& ids.contains_key(prev[i].file_id)
                    &&& record == renumbered(record.trigram, prev[i], ids)
                };
            assert(postings[i] == prev[i]);
        }
        if records.contains(record) && !earlier.contains(record) {
            let k = records.index_of(record);
            if k < earlier.len() {
                assert(earlier[k] == record);
            }
            assert(record == renumbered(trigram, postings[postings.len() - 1], ids));
        }
        if record.trigram == trigram && from_postings(postings, superseded, ids, record)
            && !earlier.contains(record) {
            let i = choose|i: int|
                {
                    &&& 0 <= i < postings.len()
                    &&& !superseded.contains((#[trigger] postings[i]).file_id)
                    &&& ids.contains_key(postings[i].file_id)
                    &&& record == renumbered(record.trigram, postings[i], ids)
                };
            if i < prev.len() {
                assert(prev[i] == postings[i]);
                assert(from_postings(prev, superseded, ids, record));
            }
            assert(records[earlier.len() as int] == record);
        }
    }
}

/// `record` stands for a posting of a list of the lookup table from entry `from` on.
spec fn from_lookup(
    lookup: Seq<LookupEntry>,
    reads: Map<u32, Vec<u8>>,
    superseded: Set<u32>,
    ids: Map<u32, u32>,
    from: int,
    record: SpillRecord,
) -> bool {
    exists|i: int|
        {
            &&& from <= i < lookup.len()
            &&& (#[trigger] lookup[i]).trigram == record.trigram
            &&& from_postings(postings_of(reads[record.trigram]@), superseded, ids, record)
        }
}

proof fn lemma_lookup_records(
    lookup: Seq<LookupEntry>,
    reads: Map<u32, Vec<u8>>,
    superseded: Set<u32>,
    ids: Map<u32, u32>,
    from: int,
    record: SpillRecord,
)
    requires
        0 <= from <= lookup.len(),
        ascending_lookup(lookup),
        lookup_records(lookup, reads, superseded, ids, from).1,
    ensures
        lookup_records(lookup, reads, superseded, ids, from).0.contains(record) <==> from_lookup(
            lookup,
            reads,
            superseded,
            ids,
            from,
            record,
        ),
    decreases lookup.len() - from,
{
    if from < lookup.len() {
        let rest = lookup_records(lookup, reads, superseded, ids, from + 1).0;
        let trigram = lookup[from].trigram;
        let here = kept_records(postings_of(reads[trigram]@), trigram, superseded, ids);
        lemma_lookup_records(lookup, reads, superseded, ids, from + 1, record);
        lemma_kept_records(postings_of(reads[trigram]@), trigram, superseded, ids, record);
        let whole = here + rest;
        assert(whole.contains(record) <==> here.contains(record) || rest.contains(record)) by {
            if here.contains(record) {
                let k = here.index_of(record);
                assert(whole[k] == record);
            }
            if rest.contains(record) {
                let k = rest.index_of(record);
                assert(whole[here.len() + k] == record);
            }
            if whole.contains(record) {
                let k = whole.index_of(record);
                if k < here.len() {
                    assert(here[k] == record);
                } else {
                    assert(rest[k - here.len()] == record);
                }
            }
        }
        if here.contains(record) {
            assert(lookup[from].trigram == record.trigram);
        }
        if from_lookup(lookup, reads, superseded, ids, from, record) {
            let i = choose|i: int|
                {
                    &&& from <= i < lookup.len()
                    &&& (#[trigger] lookup[i]).trigram == record.trigram
                    &&& from_postings(
                        postings_of(reads[record.trigram]@),
                        superseded,
                        ids,
                        record,
                    )
                };
            if i > from {
                assert(from_lookup(lookup, reads, superseded, ids, from + 1, record));
            }
        }
        if from_lookup(lookup, reads, superseded, ids, from + 1, record) {
            let i = choose|i: int|
                {
                    &&& from + 1 <= i < lookup.len()
                    &&& (#[trigger] lookup[i]).trigram == record.trigram
                    &&& from_postings(
                        postings_of(reads[record.trigram]@),
                        superseded,
                        ids,
                        record,
                    )
                };
            assert(from <= i);
        }
    } else {
        assert(!lookup_records(lookup, reads, superseded, ids, from).0.contains(record));
    }
}

pub proof fn lemma_lookup_records_grouped(
    lookup: Seq<LookupEntry>,
    reads: Map<u32, Vec<u8>>,
    superseded: Set<u32>,
    ids: Map<u32, u32>,
    from: int,
)
    requires
        0 <= from <= lookup.len(),
        ascending_lookup(lookup),
    ensures
        trigrams_sorted(lookup_records(lookup, reads, superseded, ids, from).0),
        forall|i: int|
            0 <= i < lookup_records(lookup, reads, superseded, ids, from).0.len() ==> from
                < lookup.len() && lookup[from].trigram <= (#[trigger] lookup_records(
                lookup,
                reads,
                superseded,
                ids,
                from,
            ).0[i]).trigram,
    decreases lookup.len() - from,
{
    if from < lookup.len() && reads.contains_key(lookup[from].trigram) {
        let rest = lookup_records(lookup, reads, superseded, ids, from + 1).0;
        let trigram = lookup[from].trigram;
        let here = kept_records(postings_of(reads[trigram]@), trigram, superseded, ids);
        let whole = here + rest;
        lemma_lookup_records_grouped(lookup, reads, superseded, ids, from + 1);
        lemma_kept_records(
            postings_of(reads[trigram]@),
            trigram,
            superseded,
            ids,
            SpillRecord { trigram: 0, file_id: 0, next_mask: 0, loc_mask: 0 },
        );
        assert forall|i: int| 0 <= i < whole.len() implies (if i < here.len() {
            (#[trigger] whole[i]).trigram == trigram
        } else {
            whole[i] == rest[i - here.len()] && trigram < whole[i].trigram
        }) by {
            if i < here.len() {
                assert(whole[i] == here[i]);
            } else {
                assert(rest[i - here.len()].trigram >= lookup[from + 1].trigram);
                assert(lookup[from].trigram < lookup[from + 1].trigram);
            }
        }
        assert forall|i: int, j: int| 0 <= i < j < whole.len() implies (
        #[trigger] whole[i]).trigram <= (#[trigger] whole[j]).trigram by {
            if i >= here.len() {
                assert(rest[i - here.len()].trigram <= rest[j - here.len()].trigram);
            }
        }
    }
}

// ---------------------------------------------------------------------------------------------
// Postings are kept
// ---------------------------------------------------------------------------------------------

pub(crate) proof fn lemma_streams_members(
    base: Option<Seq<SpillRecord>>,
    delta: Seq<SpillRecord>,
    record: SpillRecord,
)
    ensures
        merged(compaction_streams(base, delta)).contains(record) <==> (base matches Some(records)
            && records.contains(record)) || delta.contains(record),
{
    let streams = compaction_streams(base, delta);
    let all = merged(streams);
    lemma_merge_keeps_records(streams);
    all.to_multiset_ensures();
    delta.to_multiset_ensures();
    assert(all.contains(record) <==> all.to_multiset().count(record) > 0);
    assert(delta.contains(record) <==> delta.to_multiset().count(record) > 0);
    reveal_with_fuel(all_records, 3);
    if base is Some {
        (base->0).to_multiset_ensures();
        assert(streams[0] == base->0);
        assert(base->0.contains(record) <==> base->0.to_multiset().count(record) > 0);
        if delta.len() > 0 {
            assert(streams[1] == delta);
        } else {
            assert(!delta.contains(record));
        }
    } else {
        if delta.len() > 0 {
            assert(streams[0] == delta);
        } else {
            assert(!delta.contains(record));
        }
    }
}

/// The streams of a compaction are in the order of trigrams.
pub proof fn lemma_compaction_is_grouped(
    view: SnapshotView,
    reads: PostingReads,
    ids: Map<u32, u32>,
    delta: Seq<SpillRecord>,
)
    requires
        view.base matches Some(base) ==> ascending_lookup(base.2),
        are_delta_records(view.postings, ids, delta),
    ensures
        trigrams_sorted(merged(compaction_streams(base_stream(view, reads, ids), delta))),
{
    let streams = compaction_streams(base_stream(view, reads, ids), delta);
    assert(trigrams_sorted(delta)) by {
        assert forall|i: int, j: int| 0 <= i < j < delta.len() implies (
        #[trigger] delta[i]).trigram <= (#[trigger] delta[j]).trigram by {
            assert(crate::records::record_at_most(delta[i], delta[j]));
        }
    }
    if let Some(base) = view.base {
        lemma_lookup_records_grouped(base.2, reads.lists@, view.superseded, ids, 0);
    }
    assert forall|i: int| 0 <= i < streams.len() implies trigrams_sorted(#[trigger] streams[i]) by {
        if base_stream(view, reads, ids) is Some && i == 0 {
            assert(streams[0] == base_stream(view, reads, ids)->0);
        } else {
            assert(streams[i] == delta);
        }
    }
    lemma_merge_groups_trigrams(streams);
}

/// Some posting list of the index holds `posting` for `trigram`.
pub open spec fn knows(
    view: SnapshotView,
    reads: PostingReads,
    trigram: u32,
    posting: Posting,
) -> bool {
    reads.base_list(view.base, trigram).contains(posting) || view.list(trigram).contains(posting)
}

/// The lists of `lookup` were read from a blob as they stand there.
pub open spec fn reads_blob(
    reads: PostingReads,
    lookup: Seq<LookupEntry>,
    blob: Seq<u8>,
) -> bool {
    forall|i: int|
        0 <= i < lookup.len() ==> reads.lists@.contains_key((#[trigger] lookup[i]).trigram)
            && reads.lists@[lookup[i].trigram]@ == blob.subrange(
            lookup[i].offset as int,
            lookup[i].offset + 6 * lookup[i].count,
        )
}

/// The list of `trigram` in the new cache file.
pub(crate) proof fn lemma_new_list(
    reads: PostingReads,
    base: (u64, u64, Seq<LookupEntry>),
    records: Seq<SpillRecord>,
    trigram: u32,
    posting: Posting,
)
    requires
        trigrams_sorted(records),
        lookup_fits(records),
        base.2 == lookup_of(records),
        reads_blob(reads, base.2, record_bytes(records)),
    ensures
        reads.base_list(Some(base), trigram).contains(posting) <==> records.contains(
            SpillRecord {
                trigram,
                file_id: posting.file_id,
                next_mask: posting.next_mask,
                loc_mask: posting.loc_mask,
            },
        ),
{
    let record = SpillRecord {
        trigram,
        file_id: posting.file_id,
        next_mask: posting.next_mask,
        loc_mask: posting.loc_mask,
    };
    let list = reads.base_list(Some(base), trigram);
    lemma_lookup_leads_to_lists(records, trigram);
    match entry_for(base.2, trigram) {
        Some(entry) => {
            let i = choose|i: int|
                0 <= i < base.2.len() && (#[trigger] base.2[i]).trigram == trigram;
            assert(base.2[i] == entry);
            let first = entry.offset as int / 6;
            let piece = records.subrange(first, first + entry.count);
            assert(list == record_postings(piece));
            if list.contains(posting) {
                let k = list.index_of(posting);
                assert(piece[k] == records[first + k]);
                assert(records[first + k].trigram == trigram);
                assert(records[first + k] == record);
            }
            if records.contains(record) {
                let k = records.index_of(record);
                assert(records[k].trigram == trigram);
                assert(piece[k - first] == record);
                assert(list[k - first] == posting);
            }
        },
        None => {
            assert(!list.contains(posting));
            if records.contains(record) {
                let k = records.index_of(record);
                assert(records[k].trigram == trigram);
            }
        },
    }
}

/// A compaction keeps the postings of every file that it keeps, under the file's new id, and adds
/// none.
pub proof fn lemma_compaction_keeps_postings(
    view: SnapshotView,
    reads: PostingReads,
    ids: Map<u32, u32>,
    delta: Seq<SpillRecord>,
    new_base: (u64, u64, Seq<LookupEntry>),
    new_reads: PostingReads,
    trigram: u32,
    posting: Posting,
)
    requires
        view.files.len() <= u32::MAX + 1,
        view.base matches Some(base) ==> ascending_lookup(base.2),
        numbers(ids, kept_ids(view)),
        base_sound(view, reads, ids),
        are_delta_records(view.postings, ids, delta),
        ({
            let records = merged(compaction_streams(base_stream(view, reads, ids), delta));
            &&& lookup_fits(records)
            &&& new_base.2 == lookup_of(records)
            &&& reads_blob(new_reads, new_base.2, record_bytes(records))
        }),
        kept_ids(view).contains(posting.file_id),
    ensures
        knows(view, reads, trigram, posting) <==> new_reads.base_list(
            Some(new_base),
            trigram,
        ).contains(Posting { file_id: ids[posting.file_id], ..posting }),
{
    let records = merged(compaction_streams(base_stream(view, reads, ids), delta));
    let kept = kept_ids(view);
    let moved = Posting { file_id: ids[posting.file_id], ..posting };
    let record = renumbered(trigram, posting, ids);
    lemma_kept_upto(view, view.files.len() as int);
    assert(ids.contains_key(posting.file_id));
    assert(!view.superseded.contains(posting.file_id));
    lemma_compaction_is_grouped(view, reads, ids, delta);
    lemma_new_list(new_reads, new_base, records, trigram, moved);
    lemma_streams_members(base_stream(view, reads, ids), delta, record);
    assert(delta.contains(record) <==> from_lists(view.postings, ids, record));
    let list = view.list(trigram);
    assert(list.contains(posting) <==> from_lists(view.postings, ids, record)) by {
        if list.contains(posting) {
            let i = list.index_of(posting);
            assert(view.postings.contains_key(trigram));
            assert(record.trigram == trigram);
            assert(view.postings[record.trigram][i] == posting);
            assert(ids.contains_key(view.postings[record.trigram][i].file_id));
        }
        if from_lists(view.postings, ids, record) {
            let i = choose|i: int|
                {
                    &&& view.postings.contains_key(record.trigram)
                    &&& 0 <= i < view.postings[record.trigram].len()
                    &&& ids.contains_key((#[trigger] view.postings[record.trigram][i]).file_id)
                    &&& record == renumbered(
                        record.trigram,
                        view.postings[record.trigram][i],
                        ids,
                    )
                };
            let other = view.postings[trigram][i];
            assert(kept[ids[other.file_id] as int] == other.file_id);
            assert(kept[ids[posting.file_id] as int] == posting.file_id);
            assert(other == posting);
            assert(list[i] == posting);
        }
    }
    if let Some(base) = view.base {
        let on_disk = reads.base_list(view.base, trigram);
        let stream = base_stream(view, reads, ids)->0;
        lemma_lookup_records(base.2, reads.lists@, view.superseded, ids, 0, record);
        assert(on_disk.contains(posting) <==> stream.contains(record)) by {
            if on_disk.contains(posting) {
                let i = on_disk.index_of(posting);
                let all = postings_of(reads.lists@[trigram]@);
                assert(all[i] == posting);
                assert(from_postings(all, view.superseded, ids, record));
                let e = choose|e: int|
                    0 <= e < base.2.len() && (#[trigger] base.2[e]).trigram == trigram;
                assert(base.2[e].trigram == record.trigram);
            }
            if stream.contains(record) {
                let e = choose|e: int|
                    {
                        &&& 0 <= e < base.2.len()
                        &&& (#[trigger] base.2[e]).trigram == record.trigram
                        &&& from_postings(
                            postings_of(reads.lists@[record.trigram]@),
                            view.superseded,
                            ids,
                            record,
                        )
                    };
                let all = postings_of(reads.lists@[trigram]@);
                let i = choose|i: int|
                    {
                        &&& 0 <= i < all.len()
                        &&& !view.superseded.contains((#[trigger] all[i]).file_id)
                        &&& ids.contains_key(all[i].file_id)
                        &&& record == renumbered(record.trigram, all[i], ids)
                    };
                assert(kept[ids[all[i].file_id] as int] == all[i].file_id);
                assert(kept[ids[posting.file_id] as int] == posting.file_id);
                assert(all[i] == posting);
                lemma_sound_lookup_is_read(base.2, reads.lists@, view.superseded, ids, 0, e);
                assert(lookup_holds(base.2, trigram));
                assert(on_disk[i] == posting);
            }
        }
    }
}

proof fn lemma_sound_lookup_is_read(
    lookup: Seq<LookupEntry>,
    reads: Map<u32, Vec<u8>>,
    superseded: Set<u32>,
    ids: Map<u32, u32>,
    from: int,
    at: int,
)
    requires
        0 <= from <= at < lookup.len(),
        lookup_records(lookup, reads, superseded, ids, from).1,
    ensures
        reads.contains_key(lookup[at].trigram),
    decreases lookup.len() - from,
{
    if from < at {
        lemma_sound_lookup_is_read(lookup, reads, superseded, ids, from + 1, at);
    }
}

// ---------------------------------------------------------------------------------------------
// Searches are answered alike
// ---------------------------------------------------------------------------------------------

/// A list holds a posting of `file_id` that passes the filter.
pub(crate) proof fn lemma_list_matches(
    postings: Seq<Posting>,
    filter: Option<PostingFilter>,
    file_id: u32,
)
    ensures
        list_matches(postings, filter, file_id) <==> exists|p: Posting| #[trigger]
            postings.contains(p) && p.file_id == file_id && passes_filter(p, filter),
{
    if list_matches(postings, filter, file_id) {
        let i = choose|i: int|
            0 <= i < postings.len() && (#[trigger] postings[i]).file_id == file_id
                && passes_filter(postings[i], filter);
        assert(postings.contains(postings[i]));
    }
    if exists|p: Posting| #[trigger]
        postings.contains(p) && p.file_id == file_id && passes_filter(p, filter) {
        let p = choose|p: Posting| #[trigger]
            postings.contains(p) && p.file_id == file_id && passes_filter(p, filter);
        let i = postings.index_of(p);
        assert(postings[i] == p);
    }
}

/// What a compaction is made of: the index before, its plan, the postings that were merged, and the
/// lists read from the old and the new cache file.
pub struct Compaction {
    pub view: SnapshotView,
    pub plan: CacheWritePlan,
    pub delta: Seq<SpillRecord>,
    pub base: (u64, u64, Seq<LookupEntry>),
    pub reads: PostingReads,
    pub new_reads: PostingReads,
}

impl Compaction {
    pub open spec fn records(self) -> Seq<SpillRecord> {
        merged(
            compaction_streams(
                base_stream(self.view, self.reads, self.plan.id_map@),
                self.delta,
            ),
        )
    }

    /// The compaction went through, and the new lists were read.
    pub open spec fn sound(self) -> bool {
        &&& self.view.files.len() <= u32::MAX + 1
        &&& self.view.base matches Some(base) ==> ascending_lookup(base.2)
        &&& self.plan.keeps(self.view, kept_ids(self.view))
        &&& base_sound(self.view, self.reads, self.plan.id_map@)
        &&& are_delta_records(self.view.postings, self.plan.id_map@, self.delta)
        &&& lookup_fits(self.records())
        &&& self.base.2 == lookup_of(self.records())
        &&& reads_blob(self.new_reads, self.base.2, record_bytes(self.records()))
    }

    pub open spec fn after(self) -> SnapshotView {
        compacted_view(self.view, self.plan, self.base)
    }
}

proof fn lemma_has_posting_kept(
    run: Compaction,
    trigram: u32,
    filter: Option<PostingFilter>,
    file_id: u32,
)
    requires
        run.sound(),
        kept_ids(run.view).contains(file_id),
    ensures
        run.after().active(run.plan.id_map@[file_id]),
        run.view.has_posting(run.reads, trigram, filter, file_id) <==> run.after().has_posting(
            run.new_reads,
            trigram,
            filter,
            run.plan.id_map@[file_id],
        ),
{
    let ids = run.plan.id_map@;
    let kept = kept_ids(run.view);
    let new_id = ids[file_id];
    let after = run.after();
    lemma_kept_upto(run.view, run.view.files.len() as int);
    assert(ids.contains_key(file_id));
    assert(kept[new_id as int] == file_id);
    assert(after.files[new_id as int] == run.view.files[file_id as int]);
    let on_disk = run.reads.base_list(run.view.base, trigram);
    let since = run.view.list(trigram);
    let new_list = run.new_reads.base_list(after.base, trigram);
    lemma_list_matches(on_disk, filter, file_id);
    lemma_list_matches(since, filter, file_id);
    lemma_list_matches(new_list, filter, new_id);
    assert(after.list(trigram) =~= Seq::<Posting>::empty());
    assert(!list_matches(after.list(trigram), filter, new_id));
    if list_matches(on_disk, filter, file_id) || list_matches(since, filter, file_id) {
        let p = if list_matches(on_disk, filter, file_id) {
            choose|p: Posting| #[trigger]
                on_disk.contains(p) && p.file_id == file_id && passes_filter(p, filter)
        } else {
            choose|p: Posting| #[trigger]
                since.contains(p) && p.file_id == file_id && passes_filter(p, filter)
        };
        lemma_compaction_keeps_postings(
            run.view,
            run.reads,
            ids,
            run.delta,
            run.base,
            run.new_reads,
            trigram,
            p,
        );
        let moved = Posting { file_id: new_id, ..p };
        assert(new_list.contains(moved));
        assert(passes_filter(moved, filter));
    }
    if list_matches(new_list, filter, new_id) {
        let q = choose|q: Posting| #[trigger]
            new_list.contains(q) && q.file_id == new_id && passes_filter(q, filter);
        let p = Posting { file_id, ..q };
        lemma_compaction_keeps_postings(
            run.view,
            run.reads,
            ids,
            run.delta,
            run.base,
            run.new_reads,
            trigram,
            p,
        );
        assert(Posting { file_id: new_id, ..p } == q);
        assert(knows(run.view, run.reads, trigram, p));
        assert(passes_filter(p, filter));
    }
}

/// Files with the same postings, in two indexes, are candidates of the same queries.
pub proof fn lemma_same_postings_same_candidates(
    view: SnapshotView,
    reads: PostingReads,
    file_id: u32,
    after: SnapshotView,
    new_reads: PostingReads,
    new_id: u32,
    query: RegexQuery,
)
    requires
        forall|t: u32, f: Option<PostingFilter>| #[trigger]
            view.has_posting(reads, t, f, file_id) == after.has_posting(new_reads, t, f, new_id),
        view.active(file_id) == after.active(new_id),
        view.listed(file_id) == after.listed(new_id),
        view.unindexed.contains(file_id) == after.unindexed.contains(new_id),
    ensures
        view.is_candidate(reads, query, file_id) == after.is_candidate(new_reads, query, new_id),
{
    assert(view.has_all(reads, query, file_id) == after.has_all(new_reads, query, new_id)) by {
        if view.has_all(reads, query, file_id) {
            assert forall|i: int| 0 <= i < query.and_trigrams@.len() implies after.has_posting(
                new_reads,
                #[trigger] query.and_trigrams@[i],
                filter_for(query.and_filters@, query.and_trigrams@[i]),
                new_id,
            ) by {
                let t = query.and_trigrams@[i];
                assert(view.has_posting(reads, t, filter_for(query.and_filters@, t), file_id));
            }
        }
        if after.has_all(new_reads, query, new_id) {
            assert forall|i: int| 0 <= i < query.and_trigrams@.len() implies view.has_posting(
                reads,
                #[trigger] query.and_trigrams@[i],
                filter_for(query.and_filters@, query.and_trigrams@[i]),
                file_id,
            ) by {
                let t = query.and_trigrams@[i];
                assert(after.has_posting(
                    new_reads,
                    t,
                    filter_for(query.and_filters@, t),
                    new_id,
                ));
            }
        }
    }
    assert forall|g: int| 0 <= g < query.or_groups@.len() implies view.has_one_of(
        reads,
        query,
        g,
        file_id,
    ) == #[trigger] after.has_one_of(new_reads, query, g, new_id) by {
        let group = query.or_groups@[g]@;
        if view.has_one_of(reads, query, g, file_id) {
            let i = choose|i: int|
                0 <= i < group.len() && view.has_posting(
                    reads,
                    #[trigger] group[i],
                    group_filter(query, g, group[i]),
                    file_id,
                );
            assert(after.has_posting(new_reads, group[i], group_filter(query, g, group[i]), new_id));
        }
        if after.has_one_of(new_reads, query, g, new_id) {
            let i = choose|i: int|
                0 <= i < group.len() && after.has_posting(
                    new_reads,
                    #[trigger] group[i],
                    group_filter(query, g, group[i]),
                    new_id,
                );
            assert(view.has_posting(reads, group[i], group_filter(query, g, group[i]), file_id));
        }
    }
    assert((forall|g: int|
        0 <= g < query.or_groups@.len() ==> #[trigger] view.has_one_of(reads, query, g, file_id))
        == (forall|g: int|
        0 <= g < query.or_groups@.len() ==> #[trigger] after.has_one_of(
            new_reads,
            query,
            g,
            new_id,
        ))) by {
        if forall|g: int|
            0 <= g < query.or_groups@.len() ==> #[trigger] view.has_one_of(
                reads,
                query,
                g,
                file_id,
            ) {
            assert forall|g: int|
                0 <= g < query.or_groups@.len() implies #[trigger] after.has_one_of(
                new_reads,
                query,
                g,
                new_id,
            ) by {
                assert(view.has_one_of(reads, query, g, file_id));
            }
        }
        if forall|g: int|
            0 <= g < query.or_groups@.len() ==> #[trigger] after.has_one_of(
                new_reads,
                query,
                g,
                new_id,
            ) {
            assert forall|g: int|
                0 <= g < query.or_groups@.len() implies #[trigger] view.has_one_of(
                reads,
                query,
                g,
                file_id,
            ) by {
                assert(after.has_one_of(new_reads, query, g, new_id));
            }
        }
    }
}

/// A compaction changes no answer: a file that it keeps is a candidate of a query after it if and
/// only if it was one before.
pub proof fn lemma_compaction_keeps_candidates(
    run: Compaction,
    query: RegexQuery,
    file_id: u32,
)
    requires
        run.sound(),
        kept_ids(run.view).contains(file_id),
    ensures
        run.view.is_candidate(run.reads, query, file_id) <==> run.after().is_candidate(
            run.new_reads,
            query,
            run.plan.id_map@[file_id],
        ),
{
    let ids = run.plan.id_map@;
    let kept = kept_ids(run.view);
    let new_id = ids[file_id];
    let after = run.after();
    let (view, reads, new_reads) = (run.view, run.reads, run.new_reads);
    lemma_kept_upto(view, view.files.len() as int);
    assert(ids.contains_key(file_id));
    assert(kept[new_id as int] == file_id);
    assert forall|t: u32, f: Option<PostingFilter>| #[trigger]
        view.has_posting(reads, t, f, file_id) == after.has_posting(new_reads, t, f, new_id) by {
        lemma_has_posting_kept(run, t, f, file_id);
    }
    lemma_has_posting_kept(run, 0, None, file_id);
    assert(view.active(file_id) && view.listed(file_id));
    assert(after.active(new_id));
    assert(after.listed(new_id)) by {
        let p = choose|p: PathKey| #[trigger]
            view.ids.contains_key(p) && view.ids[p] == file_id;
        assert(run.plan.path_to_id@.contains_key(p));
        let k = run.plan.path_to_id@[p];
        assert(kept[k as int] == file_id);
        if k < new_id {
            assert(kept[k as int] < kept[new_id as int]);
        }
        if new_id < k {
            assert(kept[new_id as int] < kept[k as int]);
        }
        assert(after.ids.contains_key(p) && after.ids[p] == new_id);
    }
    assert(after.unindexed.contains(new_id) == view.unindexed.contains(file_id));
    lemma_same_postings_same_candidates(view, reads, file_id, after, new_reads, new_id, query);
}

} // verus!
