//! Building an index from nothing, with postings spilled to segments on the way.
//!
//! The postings of a large project do not fit in memory at once. They are collected in a block;
//! a full block is sorted and written as a segment, and in the end the segments and the last block
//! are merged into the posting lists of a cache file.

use crate::cache_read::text_option;
use crate::codec::u64_at;
use crate::file_entry::duplicate_files;
use crate::file_entry::file_views;
use crate::format::is_cache_of;
use crate::format::write_cache_from_sources;
use crate::format::write_error;
use crate::format::CacheWriteError;
use crate::format::CacheWritePlan;
use crate::format::EncodedCache;
use crate::index::lemma_addition_keeps_files_listed;
use crate::index::lemma_entries_len;
use crate::index::lemma_entries_map;
use crate::index::lemma_same_files_stay_listed;
use crate::index::lists_with;
use crate::index::SearchIndex;
use crate::ingest::added_as;
use crate::ingest::gets_slot;
use crate::ingest::PreparedSearchPath;
use crate::merge::lookup_fits;
use crate::merge::lookup_of;
use crate::merge::merged;
use crate::merge::source_streams;
use crate::merge::sources_sound;
use crate::merge::sources_well_formed;
use crate::merge::RecordSource;
use crate::merge::VecRecordSource;
use crate::path::SearchPath;
use crate::postings::BasePostings;
use crate::postings::Posting;
use crate::records::groups_fit;
use crate::records::open_error;
use crate::records::record_posting;
use crate::records::records_sorted;
use crate::records::segment_bytes;
use crate::records::segment_records;
use crate::records::sort_records;
use crate::records::write_spill_segment;
use crate::records::RecordError;
use crate::records::SpillRecord;
use crate::records::SpillSegmentSource;
use crate::snapshot::clone_ids;
use crate::snapshot::SnapshotView;
use crate::trigram::lists_entries;
use crate::trigram::sorted_entries;
use crate::trigram::PostingFilter;
use std::collections::HashMap;
use vstd::prelude::*;

verus! {

/// 128 MiB
pub const SPILL_LIMIT_BYTES: usize = 134_217_728;

/// What a record takes up in memory, about.
pub const SPILL_RECORD_ESTIMATED_BYTES: usize = 16;

/// How many workers read files during a build: half of those the machine has, at most eight.
pub fn search_index_build_pool_size(available: usize) -> (size: usize)
    ensures
        size == (if available <= 2 {
            1
        } else if available >= 15 {
            8
        } else {
            (available + 1) / 2
        }),
{
    let half: usize = available / 2 + available % 2;
    if half < 1 {
        1
    } else if half > 8 {
        8
    } else {
        half
    }
}

/// How many paths a build takes at a time.
pub fn build_chunk_size(pool_size: usize) -> (size: usize)
    ensures
        size == (if pool_size == 0 {
            1
        } else if pool_size >= 8 {
            32
        } else {
            pool_size * 4
        }),
{
    if pool_size == 0 {
        1
    } else if pool_size >= 8 {
        32
    } else {
        pool_size * 4
    }
}

/// An index being built.
pub struct StreamingBuilder {
    /// Files, paths and settings. The postings are not in it.
    pub index: SearchIndex,
    /// Records that no segment holds yet.
    pub block: Vec<SpillRecord>,
    /// The records of the segments written so far.
    pub spilled: Ghost<Seq<Seq<SpillRecord>>>,
    /// The posting lists that the records so far make up.
    pub lists: Ghost<Map<u32, Seq<Posting>>>,
}

/// A list of `lists` holds the posting that `record` stands for.
pub open spec fn in_lists(lists: Map<u32, Seq<Posting>>, record: SpillRecord) -> bool {
    lists.contains_key(record.trigram) && lists[record.trigram].contains(record_posting(record))
}

/// One of the segments holds `record`.
pub open spec fn in_segments(segments: Seq<Seq<SpillRecord>>, record: SpillRecord) -> bool {
    exists|i: int| 0 <= i < segments.len() && (#[trigger] segments[i]).contains(record)
}

/// A segment can be written and read back.
pub open spec fn is_segment(records: Seq<SpillRecord>) -> bool {
    records_sorted(records) && groups_fit(records, 0) && records.len() <= u64::MAX
}

/// `sorted` holds the records of `block`, by trigram and file.
pub open spec fn is_sorted_block(sorted: Seq<SpillRecord>, block: Seq<SpillRecord>) -> bool {
    records_sorted(sorted) && sorted.to_multiset() == block.to_multiset()
}

/// The records of a segment as it was read, and whether it ends as it should; none where it does not
/// begin as a segment.
pub open spec fn opened(bytes: Seq<u8>) -> Option<(Seq<SpillRecord>, bool)> {
    if open_error(bytes) is None {
        Some(segment_records(bytes, 20, u64_at(bytes, 12) as nat, 0, 0))
    } else {
        None
    }
}

/// What is wrong with the first of the segments from `i` on that does not begin as one.
pub open spec fn segment_error(segments: Seq<Vec<u8>>, i: int) -> Option<RecordError>
    decreases segments.len() - i,
{
    if i >= segments.len() {
        None
    } else {
        match open_error(segments[i]@) {
            Some(error) => Some(error),
            None => segment_error(segments, i + 1),
        }
    }
}

/// Every segment can be read to its end.
pub open spec fn segments_sound(segments: Seq<Vec<u8>>) -> bool {
    forall|i: int| 0 <= i < segments.len() ==> (opened((#[trigger] segments[i])@) matches Some(read)
        && read.1)
}

/// What the segments and the last block give, in this order.
pub open spec fn build_streams(segments: Seq<Vec<u8>>, last: Seq<SpillRecord>) -> Seq<
    Seq<SpillRecord>,
> {
    let read = Seq::new(segments.len(), |i: int| (opened(segments[i]@)->0).0);
    if last.len() > 0 {
        read.push(last)
    } else {
        read
    }
}

/// The segments are those that were written.
pub open spec fn segments_written(segments: Seq<Vec<u8>>, spilled: Seq<Seq<SpillRecord>>) -> bool {
    &&& segments.len() == spilled.len()
    &&& forall|i: int|
        0 <= i < segments.len() ==> (#[trigger] segments[i])@ == segment_bytes(spilled[i])
}

/// The records of one file.
pub open spec fn is_file_record(
    file_id: u32,
    filters: Map<u32, PostingFilter>,
    record: SpillRecord,
) -> bool {
    &&& filters.contains_key(record.trigram)
    &&& record == SpillRecord {
        trigram: record.trigram,
        file_id,
        next_mask: filters[record.trigram].next_mask,
        loc_mask: filters[record.trigram].loc_mask,
    }
}

impl View for StreamingBuilder {
    type V = SnapshotView;

    /// The index that the files so far make up.
    open spec fn view(&self) -> SnapshotView {
        SnapshotView { postings: self.lists@, ..self.index.current@ }
    }
}

impl StreamingBuilder {
    /// Nothing is lost: the segments and the block hold exactly the postings of the files so far.
    pub open spec fn keeps_records(&self) -> bool {
        forall|record: SpillRecord| #[trigger]
            in_lists(self.lists@, record) <==> in_segments(self.spilled@, record)
                || self.block@.contains(record)
    }

    pub open spec fn well_formed(&self) -> bool {
        &&& self.index.well_formed()
        &&& self.index.current.base is None
        &&& self.index.current@.postings == Map::<u32, Seq<Posting>>::empty()
        &&& self.index.current@.superseded == Set::<u32>::empty()
        &&& self.index.current.file_trigram_count@.len() == self.index.current.files@.len()
        &&& forall|id: u32| #[trigger]
            self.index.current@.unindexed.contains(id) ==> id < self.index.current.files@.len()
        &&& self.index.base_file_count == 0
        &&& self.keeps_records()
        &&& forall|i: int| 0 <= i < self.spilled@.len() ==> is_segment(#[trigger] self.spilled@[i])
    }

    /// A builder without files.
    pub fn new(project_root: SearchPath, max_file_size: u64, ignore_fingerprint: String) -> (builder:
        StreamingBuilder)
        ensures
            builder.well_formed(),
            builder@.all_listed(),
            builder.block@.len() == 0,
            builder.spilled@.len() == 0,
            builder.index.max_file_size == max_file_size,
            builder.index.ignore_rules_fingerprint@ == ignore_fingerprint@,
            builder.index.git_head is None,
            !builder.index.build_denied,
            builder.index.delta_file_trigrams@ == Map::<u32, Vec<u32>>::empty(),
            builder.index.delta_packed_bytes == 0,
            builder@ == (SnapshotView {
                base: None,
                postings: Map::empty(),
                superseded: Set::empty(),
                files: Seq::empty(),
                ids: Map::empty(),
                ready: false,
                project_root: project_root@,
                file_trigram_count: Seq::empty(),
                unindexed: Set::empty(),
            }),
    {
        let mut index = SearchIndex::new();
        index.current.project_root = project_root;
        index.max_file_size = max_file_size;
        index.ignore_rules_fingerprint = ignore_fingerprint;
        assert(index.current.files@.len() == index.current@.files.len());
        StreamingBuilder {
            index,
            block: Vec::new(),
            spilled: Ghost(Seq::empty()),
            lists: Ghost(Map::empty()),
        }
    }

    /// Adds the records of a file to the block.
    fn push_records(&mut self, file_id: u32, entries: &Vec<(u32, PostingFilter)>, Ghost(filters): Ghost<
        Map<u32, PostingFilter>,
    >)
        requires
            lists_entries(entries@, filters),
        ensures
            final(self).index == old(self).index,
            final(self).spilled == old(self).spilled,
            final(self).lists == old(self).lists,
            forall|record: SpillRecord| #[trigger]
                final(self).block@.contains(record) <==> old(self).block@.contains(record)
                    || is_file_record(file_id, filters, record),
    {
        let ghost before = self.block@;
        let mut i: usize = 0;
        while i < entries.len()
            invariant
                lists_entries(entries@, filters),
                self.index == old(self).index,
                self.spilled == old(self).spilled,
                self.lists == old(self).lists,
                i <= entries@.len(),
                self.block@.len() == before.len() + i,
                forall|k: int| 0 <= k < before.len() ==> #[trigger] self.block@[k] == before[k],
                forall|k: int|
                    before.len() <= k < before.len() + i ==> #[trigger] self.block@[k]
                        == (SpillRecord {
                        trigram: entries@[k - before.len()].0,
                        file_id,
                        next_mask: entries@[k - before.len()].1.next_mask,
                        loc_mask: entries@[k - before.len()].1.loc_mask,
                    }),
            decreases entries@.len() - i,
        {
            let (trigram, filter) = entries[i];
            self.block.push(
                SpillRecord {
                    trigram,
                    file_id,
                    next_mask: filter.next_mask,
                    loc_mask: filter.loc_mask,
                },
            );
            i += 1;
        }
        proof {
            let after = self.block@;
            assert forall|record: SpillRecord| #[trigger]
                after.contains(record) <==> before.contains(record) || is_file_record(
                file_id,
                filters,
                record,
            ) by {
                if before.contains(record) {
                    let k = before.index_of(record);
                    assert(after[k] == record);
                }
                if is_file_record(file_id, filters, record) {
                    let entry = (record.trigram, filters[record.trigram]);
                    assert(entries@.contains(entry));
                    let k = entries@.index_of(entry);
                    assert(after[before.len() + k] == record);
                }
                if after.contains(record) {
                    let k = after.index_of(record);
                    if k < before.len() {
                        assert(before[k] == record);
                    } else {
                        assert(filters.contains_key(entries@[k - before.len()].0));
                    }
                }
            }
        }
    }

    /// Adds a prepared path. Once ids have run out, only a path that takes none can be added.
    pub fn add(&mut self, path: &SearchPath, file: &PreparedSearchPath) -> (result: Result<
        (),
        CacheWriteError,
    >)
        requires
            old(self).well_formed(),
        ensures
            final(self).well_formed(),
            final(self).spilled == old(self).spilled,
            final(self)@ == added_as(old(self)@, path@, file@),
            final(self).index.only_current_changed(old(self).index),
            final(self).index.current@.ready == old(self).index.current@.ready,
            result is Ok <==> gets_slot(old(self)@, file@) || file is Skipped,
            result matches Err(error) ==> error is TooManyFiles,
            old(self)@.all_listed() && !old(self)@.ids.contains_key(path@)
                ==> final(self)@.all_listed(),
    {
        broadcast use vstd::std_specs::hash::group_hash_axioms;

        let ghost start = *self;
        proof {
            if start@.all_listed() && !start@.ids.contains_key(path@) && gets_slot(
                start@,
                file@,
            ) {
                let after = added_as(start@, path@, file@);
                assert(after.files.drop_last() =~= start@.files);
                lemma_addition_keeps_files_listed(start@, after, path@);
            }
        }
        assert(start.index.current@.files.len() == start.index.current.files@.len());
        match file {
            PreparedSearchPath::Indexed(file) => {
                let file_id: u32 = match self.index.allocate_file_id_with_metadata(
                    path,
                    file.metadata,
                    file.content_hash,
                ) {
                    Some(file_id) => file_id,
                    None => {
                        return Err(CacheWriteError::TooManyFiles);
                    },
                };
                let entries = sorted_entries(&file.trigram_map);
                proof {
                    lemma_entries_map(entries@, file.trigram_map@);
                    lemma_entries_len(entries@);
                }
                self.index.current.file_trigram_count.set(
                    file_id as usize,
                    entries.len() as u32,
                );
                let ghost filters = file.trigram_map@;
                self.push_records(file_id, &entries, Ghost(filters));
                self.lists = Ghost(lists_with(start.lists@, file_id, filters));
                proof {
                    assert(self.index.current@.files.len() == self.index.current.files@.len());
                    assert(!start.index.current@.unindexed.contains(file_id));
                    assert(self.index.current@.unindexed
                        =~= start.index.current@.unindexed.remove(file_id));
                    lemma_lists_with_members(start.lists@, file_id, filters);
                    assert forall|record: SpillRecord| #[trigger]
                        in_lists(self.lists@, record) <==> in_segments(self.spilled@, record)
                            || self.block@.contains(record) by {
                        assert(in_lists(start.lists@, record) <==> in_segments(
                            start.spilled@,
                            record,
                        ) || start.block@.contains(record));
                    }
                }
                Ok(())
            },
            PreparedSearchPath::Unindexed(metadata) => {
                if self.index.track_unindexed_file_with_metadata(path, *metadata) {
                    assert(self.index.current@.files.len() == self.index.current.files@.len());
                    assert(self.keeps_records()) by {
                        assert(start.keeps_records());
                    }
                    Ok(())
                } else {
                    assert(self.keeps_records()) by {
                        assert(start.keeps_records());
                    }
                    Err(CacheWriteError::TooManyFiles)
                }
            },
            PreparedSearchPath::Skipped => Ok(()),
        }
    }

    /// The block is full.
    pub fn wants_flush(&self) -> (full: bool)
        ensures
            full == (self.block@.len() * SPILL_RECORD_ESTIMATED_BYTES >= SPILL_LIMIT_BYTES),
    {
        self.block.len() >= SPILL_LIMIT_BYTES / SPILL_RECORD_ESTIMATED_BYTES
    }

    /// Empties the block into a segment.
    pub fn flush(&mut self) -> (segment: Result<Vec<u8>, RecordError>)
        requires
            old(self).well_formed(),
        ensures
            final(self).well_formed(),
            final(self)@ == old(self)@,
            final(self).index == old(self).index,
            match segment {
                Ok(bytes) => {
                    &&& old(self).block@.len() > 0
                    &&& final(self).block@.len() == 0
                    &&& final(self).spilled@.len() == old(self).spilled@.len() + 1
                    &&& final(self).spilled@.drop_last() == old(self).spilled@
                    &&& is_sorted_block(final(self).spilled@.last(), old(self).block@)
                    &&& bytes@ == segment_bytes(final(self).spilled@.last())
                },
                Err(error) => {
                    &&& *final(self) == *old(self)
                    &&& error is EmptySpill <==> old(self).block@.len() == 0
                    &&& !(error is EmptySpill) ==> error is SpillGroupTooLarge && exists|
                        records: Seq<SpillRecord>,
                    | #[trigger]
                        is_sorted_block(records, old(self).block@) && !groups_fit(records, 0)
                },
            },
    {
        let ghost start = *self;
        match write_spill_segment(&self.block) {
            Ok(bytes) => {
                let ghost records = choose|records: Seq<SpillRecord>| #[trigger]
                    records_sorted(records) && records.to_multiset() == start.block@.to_multiset()
                        && groups_fit(records, 0) && bytes@ == segment_bytes(records);
                self.block = Vec::new();
                self.spilled = Ghost(start.spilled@.push(records));
                proof {
                    assert(self.spilled@.drop_last() =~= start.spilled@);
                    assert(start.block.len() == start.block@.len());
                    lemma_same_members(records, start.block@);
                    assert forall|record: SpillRecord| #[trigger]
                        in_lists(self.lists@, record) <==> in_segments(self.spilled@, record)
                            || self.block@.contains(record) by {
                        assert(in_lists(start.lists@, record) <==> in_segments(
                            start.spilled@,
                            record,
                        ) || start.block@.contains(record));
                        lemma_in_more_segments(start.spilled@, records, record);
                        assert(records.contains(record) <==> start.block@.contains(record));
                    }
                }
                Ok(bytes)
            },
            Err(error) => {
                proof {
                    if error is SpillGroupTooLarge {
                        let records = choose|records: Seq<SpillRecord>| #[trigger]
                            records_sorted(records) && records.to_multiset()
                                == start.block@.to_multiset() && !groups_fit(records, 0);
                        assert(is_sorted_block(records, start.block@));
                    }
                }
                Err(error)
            },
        }
    }

    /// What the cache file of the files so far is to hold.
    pub fn plan(&self, git_head: Option<String>) -> (plan: CacheWritePlan)
        requires
            self.well_formed(),
        ensures
            plan.project_root@ == self@.project_root,
            text_option(plan.git_head) == text_option(git_head),
            plan.ignore_fingerprint@ == self.index.ignore_rules_fingerprint@,
            plan.max_file_size == self.index.max_file_size,
            file_views(plan.files@) == self@.files,
            plan.path_to_id.well_formed(),
            plan.path_to_id@ == self@.ids,
            plan.unindexed_files@ == self@.unindexed,
            plan.file_trigram_count@ == self@.file_trigram_count,
            plan.id_map@ == Map::<u32, u32>::new(|id: u32| id < self@.files.len(), |id: u32| id),
    {
        broadcast use vstd::std_specs::hash::group_hash_axioms;

        let count: usize = self.index.current.files.len();
        let mut id_map: HashMap<u32, u32> = HashMap::new();
        let mut id: usize = 0;
        assert(self.index.current@.files.len() == count);
        while id < count
            invariant
                count <= u32::MAX + 1,
                id <= count,
                id_map@ == Map::<u32, u32>::new(|k: u32| k < id, |k: u32| k),
            decreases count - id,
        {
            id_map.insert(id as u32, id as u32);
            id += 1;
            assert(id_map@ =~= Map::<u32, u32>::new(|k: u32| k < id, |k: u32| k));
        }
        assert(id_map@ =~= Map::<u32, u32>::new(|id: u32| id < self@.files.len(), |id: u32| id));
        let file_trigram_count = self.index.current.file_trigram_count.clone();
        assert(file_trigram_count@ =~= self@.file_trigram_count);
        CacheWritePlan {
            project_root: self.index.current.project_root.duplicate(),
            git_head,
            ignore_fingerprint: self.index.ignore_rules_fingerprint.clone(),
            max_file_size: self.index.max_file_size,
            files: duplicate_files(&self.index.current.files),
            path_to_id: self.index.current.path_to_id.duplicate(),
            unindexed_files: clone_ids(&self.index.current.unindexed_files),
            file_trigram_count,
            id_map,
        }
    }

    /// The records of the segments, as they were read, and of the last block.
    fn sources(segments: Vec<Vec<u8>>, sorted: Vec<SpillRecord>) -> (sources: Result<
        Vec<RecordSource>,
        RecordError,
    >)
        ensures
            match sources {
                Ok(sources) => {
                    &&& sources_well_formed(sources@)
                    &&& source_streams(sources@) == build_streams(segments@, sorted@)
                    &&& segment_error(segments@, 0) is None
                    &&& sources_sound(sources@) <==> segments_sound(segments@)
                },
                Err(error) => !segments_sound(segments@) && segment_error(segments@, 0) == Some(
                    error,
                ),
            },
    {
        let ghost given = segments@;
        let ghost read = Seq::new(given.len(), |i: int| (opened(given[i]@)->0).0);
        let mut left: Vec<Vec<u8>> = segments;
        let mut sources: Vec<RecordSource> = Vec::new();
        let mut reversed: Vec<Vec<u8>> = Vec::new();
        while left.len() > 0
            invariant
                left@.len() <= given.len(),
                left@ == given.take(left@.len() as int),
                reversed@.len() == given.len() - left@.len(),
                forall|k: int|
                    0 <= k < reversed@.len() ==> #[trigger] reversed@[k] == given[given.len() - 1
                        - k],
            decreases left@.len(),
        {
            let ghost before = left@;
            if let Some(bytes) = left.pop() {
                assert(bytes == given[before.len() - 1]);
                reversed.push(bytes);
                assert(left@ =~= given.take(left@.len() as int));
            }
        }
        while reversed.len() > 0
            invariant
                given == segments@,
                reversed@.len() <= given.len(),
                forall|k: int|
                    0 <= k < reversed@.len() ==> #[trigger] reversed@[k] == given[given.len() - 1
                        - k],
                sources@.len() == given.len() - reversed@.len(),
                sources_well_formed(sources@),
                forall|k: int|
                    0 <= k < sources@.len() ==> opened((#[trigger] given[k])@) == Some(
                        sources@[k].stream(),
                    ),
                segment_error(given, 0) == segment_error(given, sources@.len() as int),
            decreases reversed@.len(),
        {
            if let Some(bytes) = reversed.pop() {
                let ghost k = sources@.len() as int;
                assert(bytes == given[k]);
                match SpillSegmentSource::open(bytes) {
                    Ok(source) => {
                        sources.push(RecordSource::Spill(source));
                    },
                    Err(error) => {
                        assert(opened(given[k]@) is None);
                        return Err(error);
                    },
                }
            }
        }
        let ghost opened_sources = sources@;
        let ghost last = sorted@;
        if sorted.len() > 0 {
            sources.push(RecordSource::Records(VecRecordSource::new(sorted)));
        }
        proof {
            assert forall|i: int| 0 <= i < given.len() implies opened(
                (#[trigger] given[i])@,
            ) is Some by {}
            if last.len() > 0 {
                assert(last.skip(0) =~= last);
                assert(sources@.last().stream() == (last, true));
            }
            assert(source_streams(sources@) =~= build_streams(given, last)) by {
                assert forall|i: int| 0 <= i < given.len() implies (
                #[trigger] opened_sources[i]).stream().0 == read[i] by {
                    assert(opened(given[i]@) == Some(opened_sources[i].stream()));
                }
            }
            if sources_sound(sources@) {
                assert forall|i: int| 0 <= i < given.len() implies opened(
                    (#[trigger] given[i])@,
                ) matches Some(read) && read.1 by {
                    assert(sources@[i].stream().1);
                }
            }
            if segments_sound(given) {
                assert forall|i: int| 0 <= i < sources@.len() implies (
                #[trigger] sources@[i]).stream().1 by {
                    if i < given.len() {
                        assert(opened(given[i]@) == Some(sources@[i].stream()));
                    }
                }
            }
        }
        Ok(sources)
    }

    /// The cache file of the files so far, with the posting lists of the segments, as they were read,
    /// and of the last block.
    pub fn encode(
        &self,
        plan: &CacheWritePlan,
        canonical_paths: &Vec<Option<SearchPath>>,
        segments: Vec<Vec<u8>>,
    ) -> (result: Result<EncodedCache, CacheWriteError>)
        requires
            canonical_paths@.len() == plan.files@.len(),
        ensures
            exists|last: Seq<SpillRecord>|
                {
                    let records = merged(build_streams(segments@, last));
                    let writable = {
                        &&& segments_sound(segments@)
                        &&& plan.header_fits(canonical_paths@)
                        &&& lookup_fits(records)
                        &&& plan.file_trigram_count@.len() <= u32::MAX
                        &&& lookup_of(records).len() <= u32::MAX
                    };
                    &&& #[trigger] is_sorted_block(last, self.block@)
                    &&& match result {
                        Ok(encoded) => writable && is_cache_of(
                            encoded,
                            plan.header(canonical_paths@),
                            records,
                            plan.file_trigram_count@,
                        ),
                        Err(error) => !writable && match segment_error(segments@, 0) {
                            Some(first) => error == CacheWriteError::Records(first),
                            None => write_error(
                                *plan,
                                canonical_paths@,
                                records,
                                segments_sound(segments@),
                                error,
                            ),
                        },
                    }
                },
            self.well_formed() && segments_written(segments@, self.spilled@) ==> (result matches Ok(
                encoded,
            ) ==> encoded.base.well_formed()),
    {
        let sorted = sort_records(&self.block);
        let ghost last = sorted@;
        proof {
            assert(is_sorted_block(last, self.block@));
            if self.well_formed() && segments_written(segments@, self.spilled@) {
                crate::builder_laws::lemma_build_is_grouped(segments@, self.spilled@, last);
            }
        }
        let mut sources = match Self::sources(segments, sorted) {
            Ok(sources) => sources,
            Err(error) => {
                return Err(CacheWriteError::Records(error));
            },
        };
        write_cache_from_sources(plan, canonical_paths, &mut sources)
    }

    /// The index whose postings stand in the new cache file.
    pub fn into_index(self, base: BasePostings, git_head: Option<String>) -> (index: Result<
        SearchIndex,
        CacheWriteError,
    >)
        requires
            self.well_formed(),
            base.well_formed(),
        ensures
            match index {
                Ok(index) => {
                    &&& self@.files.len() <= u32::MAX
                    &&& index.well_formed()
                    &&& index.current@ == (SnapshotView {
                        base: Some(base@),
                        postings: Map::empty(),
                        ..self@
                    })
                    &&& index.base_file_count == self@.files.len()
                    &&& self@.all_listed() ==> index.current@.all_listed()
                    &&& text_option(index.git_head) == text_option(git_head)
                    &&& index.delta_file_trigrams == self.index.delta_file_trigrams
                    &&& index.build_denied == self.index.build_denied
                    &&& index.max_file_size == self.index.max_file_size
                    &&& index.ignore_rules_fingerprint == self.index.ignore_rules_fingerprint
                    &&& index.delta_packed_bytes == self.index.delta_packed_bytes
                    &&& index.compaction == self.index.compaction
                },
                Err(error) => self@.files.len() > u32::MAX && error is TooManyFiles,
            },
    {
        let mut index = self.index;
        assert(index.current@.files.len() == index.current.files@.len());
        if index.current.files.len() as u64 > u32::MAX as u64 {
            return Err(CacheWriteError::TooManyFiles);
        }
        index.base_file_count = index.current.files.len() as u32;
        index.git_head = git_head;
        index.current.base = Some(base);
        proof {
            lemma_same_files_stay_listed(self@, index.current@);
        }
        Ok(index)
    }
}

/// Lists with one more file hold what they held, and the postings of the file.
proof fn lemma_lists_with_members(
    lists: Map<u32, Seq<Posting>>,
    file_id: u32,
    filters: Map<u32, PostingFilter>,
)
    ensures
        forall|record: SpillRecord| #[trigger]
            in_lists(lists_with(lists, file_id, filters), record) <==> in_lists(lists, record)
                || is_file_record(file_id, filters, record),
{
    let after = lists_with(lists, file_id, filters);
    assert forall|record: SpillRecord| #[trigger] in_lists(after, record) <==> in_lists(
        lists,
        record,
    ) || is_file_record(file_id, filters, record) by {
        let t = record.trigram;
        let posting = record_posting(record);
        let list = if lists.contains_key(t) {
            lists[t]
        } else {
            Seq::empty()
        };
        if after.contains_key(t) {
            if filters.contains_key(t) {
                let added = Posting {
                    file_id,
                    next_mask: filters[t].next_mask,
                    loc_mask: filters[t].loc_mask,
                };
                assert(after[t] == list.push(added));
                assert(after[t][list.len() as int] == added);
                if list.contains(posting) {
                    let k = list.index_of(posting);
                    assert(after[t][k] == posting);
                }
                if after[t].contains(posting) {
                    let k = after[t].index_of(posting);
                    if k < list.len() {
                        assert(list[k] == posting);
                    }
                }
            } else {
                assert(after[t] == list);
            }
        }
    }
}

/// Sequences that hold the same records as often have the same members.
proof fn lemma_same_members(left: Seq<SpillRecord>, right: Seq<SpillRecord>)
    requires
        left.to_multiset() == right.to_multiset(),
    ensures
        forall|record: SpillRecord| #[trigger] left.contains(record) <==> right.contains(record),
        left.len() == right.len(),
{
    left.to_multiset_ensures();
    right.to_multiset_ensures();
    assert forall|record: SpillRecord| #[trigger] left.contains(record) <==> right.contains(
        record,
    ) by {
        assert(left.contains(record) <==> left.to_multiset().count(record) > 0);
        assert(right.contains(record) <==> right.to_multiset().count(record) > 0);
    }
}

proof fn lemma_in_more_segments(
    segments: Seq<Seq<SpillRecord>>,
    records: Seq<SpillRecord>,
    record: SpillRecord,
)
    ensures
        in_segments(segments.push(records), record) <==> in_segments(segments, record)
            || records.contains(record),
{
    let after = segments.push(records);
    if in_segments(segments, record) {
        let i = choose|i: int| 0 <= i < segments.len() && (#[trigger] segments[i]).contains(record);
        assert(after[i].contains(record));
    }
    if records.contains(record) {
        assert(after[segments.len() as int].contains(record));
    }
    if in_segments(after, record) {
        let i = choose|i: int| 0 <= i < after.len() && (#[trigger] after[i]).contains(record);
        if i < segments.len() {
            assert(segments[i].contains(record));
        }
    }
}

} // verus!
