//! Merging sources of posting records into the posting lists of a cache file.

use crate::postings::posting_bytes;
use crate::postings::postings_of;
use crate::postings::push_posting;
use crate::postings::LookupEntry;
use crate::postings::Posting;
use crate::postings::PostingReads;
use crate::records::is_source_error;
use crate::records::record_at_most;
use crate::records::record_bytes;
use crate::records::record_posting;
use crate::records::RecordError;
use crate::records::SpillRecord;
use crate::records::SpillSegmentSource;
use std::collections::HashMap;
use std::collections::HashSet;
use vstd::prelude::*;

verus! {

// ---------------------------------------------------------------------------------------------
// Sources
// ---------------------------------------------------------------------------------------------

/// Records in memory.
pub struct VecRecordSource {
    pub records: Vec<SpillRecord>,
    pub index: usize,
}

/// The posting lists of a cache file, under new file ids.
pub struct BaseRecordSource {
    pub lookup: Vec<LookupEntry>,
    pub reads: PostingReads,
    /// Files whose postings no longer count.
    pub superseded: HashSet<u32>,
    /// New ids of the files that are kept.
    pub id_map: HashMap<u32, u32>,
    pub lookup_index: usize,
    pub current: Vec<SpillRecord>,
    pub current_index: usize,
}

/// Where records come from.
pub enum RecordSource {
    Records(VecRecordSource),
    Spill(SpillSegmentSource),
    Base(BaseRecordSource),
}

/// The postings of a list under new ids, without those of files that are not kept.
pub open spec fn kept_records(
    postings: Seq<Posting>,
    trigram: u32,
    superseded: Set<u32>,
    ids: Map<u32, u32>,
) -> Seq<SpillRecord>
    decreases postings.len(),
{
    if postings.len() == 0 {
        Seq::empty()
    } else {
        let earlier = kept_records(postings.drop_last(), trigram, superseded, ids);
        let posting = postings.last();
        if !superseded.contains(posting.file_id) && ids.contains_key(posting.file_id) {
            earlier.push(
                SpillRecord {
                    trigram,
                    file_id: ids[posting.file_id],
                    next_mask: posting.next_mask,
                    loc_mask: posting.loc_mask,
                },
            )
        } else {
            earlier
        }
    }
}

/// The records of the lookup entries from `from` on, and whether all their lists could be read.
pub open spec fn lookup_records(
    lookup: Seq<LookupEntry>,
    reads: Map<u32, Vec<u8>>,
    superseded: Set<u32>,
    ids: Map<u32, u32>,
    from: int,
) -> (Seq<SpillRecord>, bool)
    decreases lookup.len() - from,
{
    if from < 0 || from >= lookup.len() {
        (Seq::empty(), true)
    } else if !reads.contains_key(lookup[from].trigram) {
        (Seq::empty(), false)
    } else {
        let rest = lookup_records(lookup, reads, superseded, ids, from + 1);
        (
            kept_records(
                postings_of(reads[lookup[from].trigram]@),
                lookup[from].trigram,
                superseded,
                ids,
            ) + rest.0,
            rest.1,
        )
    }
}

/// The postings of a list under new ids, without those of files that are not kept.
pub fn keep_records(
    postings: &Vec<Posting>,
    trigram: u32,
    superseded: &HashSet<u32>,
    id_map: &HashMap<u32, u32>,
) -> (records: Vec<SpillRecord>)
    ensures
        records@ == kept_records(postings@, trigram, superseded@, id_map@),
{
    broadcast use vstd::std_specs::hash::group_hash_axioms;

    let mut records: Vec<SpillRecord> = Vec::new();
    let mut i: usize = 0;
    assert(postings@.take(0) =~= Seq::<Posting>::empty());
    while i < postings.len()
        invariant
            i <= postings@.len(),
            records@ == kept_records(postings@.take(i as int), trigram, superseded@, id_map@),
        decreases postings@.len() - i,
    {
        let posting: Posting = postings[i];
        proof {
            assert(postings@.take(i + 1).drop_last() =~= postings@.take(i as int));
            assert(postings@.take(i + 1).last() == posting);
        }
        if !superseded.contains(&posting.file_id) {
            if let Some(file_id) = id_map.get(&posting.file_id) {
                records.push(
                    SpillRecord {
                        trigram,
                        file_id: *file_id,
                        next_mask: posting.next_mask,
                        loc_mask: posting.loc_mask,
                    },
                );
            }
        }
        i += 1;
    }
    assert(postings@.take(i as int) =~= postings@);
    records
}

impl VecRecordSource {
    pub fn new(records: Vec<SpillRecord>) -> (source: VecRecordSource)
        ensures
            source.index == 0,
            source.records@ == records@,
    {
        VecRecordSource { records, index: 0 }
    }
}

impl BaseRecordSource {
    pub fn new(
        lookup: Vec<LookupEntry>,
        reads: PostingReads,
        superseded: HashSet<u32>,
        id_map: HashMap<u32, u32>,
    ) -> (source: BaseRecordSource)
        ensures
            source.well_formed(),
            source.stream() == lookup_records(
                lookup@,
                reads.lists@,
                superseded@,
                id_map@,
                0,
            ),
    {
        let source = BaseRecordSource {
            lookup,
            reads,
            superseded,
            id_map,
            lookup_index: 0,
            current: Vec::new(),
            current_index: 0,
        };
        assert(source.stream().0 =~= lookup_records(
            lookup@,
            reads.lists@,
            superseded@,
            id_map@,
            0,
        ).0);
        source
    }

    pub open spec fn well_formed(&self) -> bool {
        &&& self.lookup_index <= self.lookup@.len()
        &&& self.current_index <= self.current@.len()
    }

    /// The records to come, and whether all their lists could be read.
    pub open spec fn stream(&self) -> (Seq<SpillRecord>, bool) {
        let rest = lookup_records(
            self.lookup@,
            self.reads.lists@,
            self.superseded@,
            self.id_map@,
            self.lookup_index as int,
        );
        (self.current@.skip(self.current_index as int) + rest.0, rest.1)
    }

    /// Takes up the next list that has records; says whether there is one.
    fn load_next_group(&mut self) -> (loaded: Result<bool, RecordError>)
        requires
            old(self).well_formed(),
            old(self).current_index == old(self).current@.len(),
        ensures
            match loaded {
                Ok(true) => {
                    &&& final(self).well_formed()
                    &&& final(self).current_index < final(self).current@.len()
                    &&& final(self).stream() == old(self).stream()
                },
                Ok(false) => {
                    &&& final(self).well_formed()
                    &&& final(self).current_index == final(self).current@.len()
                    &&& old(self).stream().0.len() == 0
                    &&& old(self).stream().1
                    &&& final(self).stream() == old(self).stream()
                },
                Err(error) => {
                    &&& old(self).stream().0.len() == 0
                    &&& !old(self).stream().1
                    &&& error is UnreadablePostings
                },
            },
    {
        broadcast use vstd::std_specs::hash::group_hash_axioms;

        proof {
            assert(self.current@.skip(self.current_index as int) =~= Seq::<SpillRecord>::empty());
        }
        while self.lookup_index < self.lookup.len()
            invariant
                self.well_formed(),
                self.current_index == self.current@.len(),
                self.stream() == old(self).stream(),
            decreases self.lookup@.len() - self.lookup_index,
        {
            let entry: LookupEntry = self.lookup[self.lookup_index];
            let ghost before = *self;
            proof {
                assert(self.current@.skip(self.current_index as int) =~= Seq::<
                    SpillRecord,
                >::empty());
            }
            match self.reads.lists.get(&entry.trigram) {
                Some(bytes) => {
                    let postings = crate::postings::decode_postings(bytes.as_slice());
                    let records = keep_records(
                        &postings,
                        entry.trigram,
                        &self.superseded,
                        &self.id_map,
                    );
                    self.lookup_index = self.lookup_index + 1;
                    self.current = records;
                    self.current_index = 0;
                    proof {
                        assert(self.current@.skip(0) =~= self.current@);
                        assert(self.stream().0 =~= before.stream().0);
                    }
                    if self.current.len() > 0 {
                        return Ok(true);
                    }
                },
                None => {
                    proof {
                        assert(before.stream().0 =~= Seq::<SpillRecord>::empty());
                    }
                    return Err(RecordError::UnreadablePostings);
                },
            }
        }
        proof {
            assert(self.current@.skip(self.current_index as int) =~= Seq::<SpillRecord>::empty());
            assert(self.stream().0 =~= Seq::<SpillRecord>::empty());
        }
        Ok(false)
    }
}

impl RecordSource {
    pub open spec fn well_formed(&self) -> bool {
        match self {
            RecordSource::Records(source) => source.index <= source.records@.len(),
            RecordSource::Spill(source) => source.well_formed(),
            RecordSource::Base(source) => source.well_formed(),
        }
    }

    /// The records to come, and whether the source ends as it should.
    pub open spec fn stream(&self) -> (Seq<SpillRecord>, bool) {
        match self {
            RecordSource::Records(source) => (source.records@.skip(source.index as int), true),
            RecordSource::Spill(source) => source.stream(),
            RecordSource::Base(source) => source.stream(),
        }
    }

    /// The next record, where there is one.
    pub fn next_record(&mut self) -> (record: Result<Option<SpillRecord>, RecordError>)
        requires
            old(self).well_formed(),
        ensures
            match record {
                Ok(Some(record)) => {
                    &&& final(self).well_formed()
                    &&& old(self).stream().0.len() > 0
                    &&& record == old(self).stream().0[0]
                    &&& final(self).stream() == (old(self).stream().0.skip(1), old(
                        self,
                    ).stream().1)
                },
                Ok(None) => {
                    &&& final(self).well_formed()
                    &&& final(self).stream() == old(self).stream()
                    &&& old(self).stream().0.len() == 0
                    &&& old(self).stream().1
                },
                Err(error) => {
                    &&& old(self).stream().0.len() == 0
                    &&& !old(self).stream().1
                    &&& is_source_error(error)
                },
            },
    {
        match self {
            RecordSource::Records(source) => {
                if source.index < source.records.len() {
                    let record: SpillRecord = source.records[source.index];
                    source.index = source.index + 1;
                    proof {
                        assert(old(self).stream().0.skip(1) =~= source.records@.skip(
                            source.index as int,
                        ));
                    }
                    Ok(Some(record))
                } else {
                    Ok(None)
                }
            },
            RecordSource::Spill(source) => source.next_record(),
            RecordSource::Base(source) => {
                if source.current_index >= source.current.len() {
                    match source.load_next_group() {
                        Ok(true) => {},
                        Ok(false) => {
                            return Ok(None);
                        },
                        Err(error) => {
                            return Err(error);
                        },
                    }
                }
                let record: SpillRecord = source.current[source.current_index];
                let ghost before = *source;
                assert(source.current_index < source.current.len());
                source.current_index = source.current_index + 1;
                proof {
                    assert(before.stream().0.skip(1) =~= source.stream().0);
                }
                Ok(Some(record))
            },
        }
    }
}

// ---------------------------------------------------------------------------------------------
// Groups
// ---------------------------------------------------------------------------------------------

/// Records with one trigram that stand together: how many, and how many stand before them.
pub struct Span {
    pub trigram: u32,
    pub first: int,
    pub count: int,
}

/// The spans of a sequence of records.
pub open spec fn spans_of(records: Seq<SpillRecord>) -> Seq<Span>
    decreases records.len(),
{
    if records.len() == 0 {
        Seq::empty()
    } else {
        let earlier = spans_of(records.drop_last());
        let trigram = records.last().trigram;
        if earlier.len() > 0 && earlier.last().trigram == trigram {
            earlier.drop_last().push(
                Span { count: earlier.last().count + 1, ..earlier.last() },
            )
        } else {
            earlier.push(Span { trigram, first: records.len() - 1, count: 1 })
        }
    }
}

pub open spec fn span_entry(span: Span) -> LookupEntry {
    LookupEntry {
        trigram: span.trigram,
        offset: (6 * span.first) as u64,
        count: span.count as u32,
    }
}

/// The lookup entries of a sequence of records whose postings stand one after the other.
pub open spec fn lookup_of(records: Seq<SpillRecord>) -> Seq<LookupEntry> {
    spans_of(records).map_values(|span: Span| span_entry(span))
}

/// Offsets and counts have room in lookup entries.
pub open spec fn lookup_fits(records: Seq<SpillRecord>) -> bool {
    &&& 6 * records.len() <= u64::MAX
    &&& forall|i: int|
        0 <= i < spans_of(records).len() ==> (#[trigger] spans_of(records)[i]).count <= u32::MAX
}

/// The lookup table under way.
pub struct LookupBuilder {
    pub entries: Vec<LookupEntry>,
    pub blob_len: u64,
}

impl LookupBuilder {
    /// The table stands for `records`.
    pub open spec fn stands_for(&self, records: Seq<SpillRecord>) -> bool {
        &&& lookup_fits(records)
        &&& self.entries@ == lookup_of(records)
        &&& self.blob_len == 6 * records.len()
    }

    pub(crate) fn new() -> (builder: LookupBuilder)
        ensures
            builder.stands_for(Seq::empty()),
    {
        let builder = LookupBuilder { entries: Vec::new(), blob_len: 0 };
        assert(builder.entries@ =~= lookup_of(Seq::empty()));
        builder
    }

    /// Takes in the record whose posting comes next in the blob.
    pub(crate) fn push(&mut self, record: SpillRecord, Ghost(records): Ghost<Seq<SpillRecord>>) -> (result:
        Result<(), RecordError>)
        requires
            old(self).stands_for(records),
        ensures
            match result {
                Ok(()) => final(self).stands_for(records.push(record)),
                Err(RecordError::PostingsBlobTooLarge) => 6 * (records.len() + 1) > u64::MAX,
                Err(RecordError::PostingListTooLarge) => !lookup_fits(records.push(record)),
                Err(_) => false,
            },
    {
        let ghost next = records.push(record);
        let ghost earlier = spans_of(records);
        proof {
            assert(next.drop_last() =~= records);
            lemma_spans_are_bounded(records);
            assert(lookup_of(records).len() == earlier.len());
        }
        let blob_len: u64 = match self.blob_len.checked_add(6) {
            Some(blob_len) => blob_len,
            None => {
                return Err(RecordError::PostingsBlobTooLarge);
            },
        };
        let count: usize = self.entries.len();
        if count > 0 && self.entries[count - 1].trigram == record.trigram {
            let last: LookupEntry = self.entries[count - 1];
            assert(last == span_entry(earlier.last()));
            if last.count == u32::MAX {
                proof {
                    let spans = spans_of(next);
                    assert(spans[spans.len() - 1].count == earlier.last().count + 1);
                }
                return Err(RecordError::PostingListTooLarge);
            }
            self.entries.set(
                count - 1,
                LookupEntry {
                    trigram: last.trigram,
                    offset: last.offset,
                    count: last.count + 1,
                },
            );
            proof {
                let spans = spans_of(next);
                assert(self.entries@ =~= lookup_of(next));
                assert forall|i: int| 0 <= i < spans.len() implies (#[trigger] spans[i]).count
                    <= u32::MAX by {
                    if i < spans.len() - 1 {
                        assert(spans[i] == earlier[i]);
                    }
                }
            }
        } else {
            self.entries.push(
                LookupEntry { trigram: record.trigram, offset: self.blob_len, count: 1 },
            );
            proof {
                let spans = spans_of(next);
                if earlier.len() > 0 {
                    assert(self.entries@[count - 1] == span_entry(earlier.last()));
                }
                assert(self.entries@ =~= lookup_of(next));
                assert forall|i: int| 0 <= i < spans.len() implies (#[trigger] spans[i]).count
                    <= u32::MAX by {
                    if i < spans.len() - 1 {
                        assert(spans[i] == earlier[i]);
                    }
                }
            }
        }
        self.blob_len = blob_len;
        Ok(())
    }
}

proof fn lemma_spans_are_bounded(records: Seq<SpillRecord>)
    ensures
        forall|i: int|
            0 <= i < spans_of(records).len() ==> {
                let span = #[trigger] spans_of(records)[i];
                0 <= span.first && 1 <= span.count && span.first + span.count <= records.len()
            },
        spans_of(records).len() > 0 ==> spans_of(records).last().first + spans_of(
            records,
        ).last().count == records.len(),
        records.len() > 0 ==> spans_of(records).len() > 0 && spans_of(records).last().trigram
            == records.last().trigram,
    decreases records.len(),
{
    if records.len() > 0 {
        let prev = records.drop_last();
        lemma_spans_are_bounded(prev);
        let spans = spans_of(records);
        let earlier = spans_of(prev);
        assert forall|i: int| 0 <= i < spans.len() implies {
            let span = #[trigger] spans[i];
            0 <= span.first && 1 <= span.count && span.first + span.count <= records.len()
        } by {
            if i < earlier.len() {
                assert(earlier[i].first >= 0);
            }
        }
    }
}

// ---------------------------------------------------------------------------------------------
// Merging
// ---------------------------------------------------------------------------------------------

/// `a` comes before `b`: by trigram, then by file.
pub open spec fn record_before(a: SpillRecord, b: SpillRecord) -> bool {
    a.trigram < b.trigram || (a.trigram == b.trigram && a.file_id < b.file_id)
}

/// Among the first `count` sources that have records, the one whose next record comes first; of
/// several, the first.
pub open spec fn least_source(streams: Seq<Seq<SpillRecord>>, count: nat) -> Option<int>
    decreases count,
{
    if count == 0 {
        None
    } else {
        let candidate = count - 1;
        match least_source(streams, (count - 1) as nat) {
            None => if streams[candidate].len() > 0 {
                Some(candidate)
            } else {
                None
            },
            Some(best) => if streams[candidate].len() > 0 && record_before(
                streams[candidate][0],
                streams[best][0],
            ) {
                Some(candidate)
            } else {
                Some(best)
            },
        }
    }
}

/// How many records the first `count` sources have.
pub open spec fn total_records(streams: Seq<Seq<SpillRecord>>, count: nat) -> nat
    decreases count,
{
    if count == 0 {
        0
    } else {
        total_records(streams, (count - 1) as nat) + streams[count - 1].len()
    }
}

/// `steps` records off the sources, each time the one that comes first.
pub open spec fn merge_steps(streams: Seq<Seq<SpillRecord>>, steps: nat) -> Seq<SpillRecord>
    decreases steps,
{
    if steps == 0 {
        Seq::empty()
    } else {
        match least_source(streams, streams.len()) {
            Some(s) => seq![streams[s][0]] + merge_steps(
                streams.update(s, streams[s].skip(1)),
                (steps - 1) as nat,
            ),
            None => Seq::empty(),
        }
    }
}

/// All records of the sources, merged.
pub open spec fn merged(streams: Seq<Seq<SpillRecord>>) -> Seq<SpillRecord> {
    merge_steps(streams, total_records(streams, streams.len()))
}

pub open spec fn source_streams(sources: Seq<RecordSource>) -> Seq<Seq<SpillRecord>> {
    sources.map_values(|source: RecordSource| source.stream().0)
}

pub open spec fn sources_well_formed(sources: Seq<RecordSource>) -> bool {
    forall|i: int| 0 <= i < sources.len() ==> (#[trigger] sources[i]).well_formed()
}

/// Every source ends as it should.
pub open spec fn sources_sound(sources: Seq<RecordSource>) -> bool {
    forall|i: int| 0 <= i < sources.len() ==> (#[trigger] sources[i]).stream().1
}

/// Why merging fails: a source broke off, or the lists grew too large. `sound` says that every source
/// ends as it should.
pub open spec fn merge_error(records: Seq<SpillRecord>, sound: bool, error: RecordError) -> bool {
    match error {
        RecordError::PostingsBlobTooLarge => 6 * records.len() > u64::MAX,
        RecordError::PostingListTooLarge => !lookup_fits(records),
        _ => is_source_error(error) && !sound,
    }
}

/// Posting lists one after the other, and where each stands.
pub struct MergedPostings {
    pub blob: Vec<u8>,
    pub lookup: Vec<LookupEntry>,
}

/// The records that are left: the record taken out of each source and what the source still has.
spec fn pending(heads: Seq<Option<SpillRecord>>, sources: Seq<RecordSource>) -> Seq<
    Seq<SpillRecord>,
> {
    Seq::new(
        sources.len(),
        |i: int|
            match heads[i] {
                Some(record) => seq![record] + sources[i].stream().0,
                None => Seq::empty(),
            },
    )
}

/// A source without a record taken out has none left.
spec fn heads_agree(heads: Seq<Option<SpillRecord>>, sources: Seq<RecordSource>) -> bool {
    &&& heads.len() == sources.len()
    &&& forall|i: int|
        0 <= i < heads.len() && (#[trigger] heads[i]) is None ==> sources[i].stream().0.len() == 0
            && sources[i].stream().1
}

pub(crate) proof fn lemma_total_of_update(
    streams: Seq<Seq<SpillRecord>>,
    at: int,
    stream: Seq<SpillRecord>,
    count: nat,
)
    requires
        0 <= at < streams.len(),
        count <= streams.len(),
    ensures
        total_records(streams.update(at, stream), count) == total_records(streams, count) + (
        if at < count {
            stream.len() - streams[at].len()
        } else {
            0
        }),
    decreases count,
{
    if count > 0 {
        lemma_total_of_update(streams, at, stream, (count - 1) as nat);
    }
}

pub(crate) proof fn lemma_least_source(streams: Seq<Seq<SpillRecord>>, count: nat)
    requires
        count <= streams.len(),
    ensures
        match least_source(streams, count) {
            Some(s) => {
                &&& 0 <= s < count
                &&& streams[s].len() > 0
                &&& forall|i: int|
                    0 <= i < count && (#[trigger] streams[i]).len() > 0 ==> record_at_most(
                        streams[s][0],
                        streams[i][0],
                    )
            },
            None => total_records(streams, count) == 0 && forall|i: int|
                0 <= i < count ==> (#[trigger] streams[i]).len() == 0,
        },
    decreases count,
{
    if count > 0 {
        lemma_least_source(streams, (count - 1) as nat);
    }
}

pub(crate) fn find_least(heads: &Vec<Option<SpillRecord>>, Ghost(streams): Ghost<Seq<Seq<SpillRecord>>>) -> (
    least: Option<usize>)
    requires
        streams.len() == heads@.len(),
        forall|i: int|
            0 <= i < heads@.len() ==> match #[trigger] heads@[i] {
                Some(record) => streams[i].len() > 0 && streams[i][0] == record,
                None => streams[i].len() == 0,
            },
    ensures
        match least {
            Some(s) => s < heads@.len() && heads@[s as int] is Some && least_source(
                streams,
                streams.len(),
            ) == Some(s as int),
            None => least_source(streams, streams.len()) is None,
        },
{
    let mut least: Option<usize> = None;
    let mut i: usize = 0;
    while i < heads.len()
        invariant
            streams.len() == heads@.len(),
            forall|k: int|
                0 <= k < heads@.len() ==> match #[trigger] heads@[k] {
                    Some(record) => streams[k].len() > 0 && streams[k][0] == record,
                    None => streams[k].len() == 0,
                },
            i <= heads@.len(),
            match least {
                Some(s) => s < i && heads@[s as int] is Some && least_source(streams, i as nat)
                    == Some(s as int),
                None => least_source(streams, i as nat) is None,
            },
        decreases heads@.len() - i,
    {
        assert(match heads@[i as int] {
            Some(record) => streams[i as int].len() > 0 && streams[i as int][0] == record,
            None => streams[i as int].len() == 0,
        });
        if let Some(candidate) = heads[i] {
            match least {
                None => {
                    least = Some(i);
                },
                Some(s) => {
                    assert(match heads@[s as int] {
                        Some(record) => streams[s as int].len() > 0 && streams[s as int][0]
                            == record,
                        None => streams[s as int].len() == 0,
                    });
                    if let Some(best) = heads[s] {
                        if candidate.trigram < best.trigram || (candidate.trigram == best.trigram
                            && candidate.file_id < best.file_id) {
                            least = Some(i);
                        }
                    }
                },
            }
        }
        i += 1;
    }
    least
}

/// Merges the records of all sources into posting lists: by trigram, then by file, and by the order
/// of the sources where these agree.
pub fn merge_sources(sources: &mut Vec<RecordSource>) -> (result: Result<
    MergedPostings,
    RecordError,
>)
    requires
        sources_well_formed(old(sources)@),
    ensures
        match result {
            Ok(postings) => {
                let records = merged(source_streams(old(sources)@));
                &&& sources_sound(old(sources)@)
                &&& lookup_fits(records)
                &&& postings.blob@ == record_bytes(records)
                &&& postings.lookup@ == lookup_of(records)
            },
            Err(error) => {
                let records = merged(source_streams(old(sources)@));
                &&& !sources_sound(old(sources)@) || !lookup_fits(records)
                &&& merge_error(records, sources_sound(old(sources)@), error)
            },
        },
{
    let ghost start = sources@;
    let ghost all = merged(source_streams(start));
    let mut heads: Vec<Option<SpillRecord>> = Vec::new();
    let mut i: usize = 0;
    while i < sources.len()
        invariant
            start == old(sources)@,
            all == merged(source_streams(start)),
            i <= sources@.len(),
            sources@.len() == start.len(),
            heads@.len() == i,
            sources_well_formed(sources@),
            forall|k: int| 0 <= k < start.len() ==> (#[trigger] sources@[k]).stream().1
                == start[k].stream().1,
            forall|k: int| i <= k < start.len() ==> #[trigger] sources@[k] == start[k],
            forall|k: int|
                0 <= k < i ==> match #[trigger] heads@[k] {
                    Some(record) => start[k].stream().0 == seq![record] + sources@[k].stream().0,
                    None => start[k].stream().0.len() == 0 && sources@[k].stream().0.len() == 0
                        && sources@[k].stream().1,
                },
        decreases sources@.len() - i,
    {
        let ghost before = sources@;
        let source = &mut sources[i];
        let next = source.next_record();
        match next {
            Ok(head) => {
                heads.push(head);
                proof {
                    assert(sources@ =~= before.update(i as int, sources@[i as int]));
                    if head is Some {
                        let stream = start[i as int].stream().0;
                        assert(stream =~= seq![stream[0]] + stream.skip(1));
                    }
                    assert forall|k: int| 0 <= k < i + 1 implies match #[trigger] heads@[k] {
                        Some(record) => start[k].stream().0 == seq![record]
                            + sources@[k].stream().0,
                        None => start[k].stream().0.len() == 0 && sources@[k].stream().0.len()
                            == 0 && sources@[k].stream().1,
                    } by {
                        if k < i {
                            assert(sources@[k] == before[k]);
                        }
                    }
                    assert forall|k: int| 0 <= k < start.len() implies (
                    #[trigger] sources@[k]).stream().1 == start[k].stream().1 by {
                        if k != i {
                            assert(sources@[k] == before[k]);
                        }
                    }
                    assert forall|k: int| i + 1 <= k < start.len() implies #[trigger] sources@[k]
                        == start[k] by {
                        assert(sources@[k] == before[k]);
                    }
                    assert forall|k: int| 0 <= k < sources@.len() implies (
                    #[trigger] sources@[k]).well_formed() by {
                        if k != i {
                            assert(sources@[k] == before[k]);
                        }
                    }
                }
            },
            Err(error) => {
                proof {
                    assert(!start[i as int].stream().1);
                }
                return Err(error);
            },
        }
        i += 1;
    }
    let mut blob: Vec<u8> = Vec::new();
    let mut builder = LookupBuilder::new();
    let ghost mut done: Seq<SpillRecord> = Seq::empty();
    let ghost mut left: Seq<Seq<SpillRecord>> = pending(heads@, sources@);
    let ghost mut steps: nat = total_records(left, left.len());
    proof {
        assert forall|k: int| 0 <= k < start.len() implies #[trigger] left[k]
            == start[k].stream().0 by {
            assert(heads@[k] is Some || heads@[k] is None);
            if heads@[k] is None {
                assert(left[k] =~= start[k].stream().0);
            }
        }
        assert(left =~= source_streams(start));
        assert(done + merge_steps(left, steps) =~= all);
        assert(record_bytes(done) =~= Seq::<u8>::empty());
    }
    loop
        invariant
            start == old(sources)@,
            all == merged(source_streams(start)),
            sources@.len() == start.len(),
            sources_well_formed(sources@),
            heads_agree(heads@, sources@),
            forall|k: int| 0 <= k < start.len() ==> (#[trigger] sources@[k]).stream().1
                == start[k].stream().1,
            left == pending(heads@, sources@),
            steps == total_records(left, left.len()),
            done + merge_steps(left, steps) == all,
            builder.stands_for(done),
            blob@ == record_bytes(done),
        ensures
            sources_sound(start),
            done == all,
            builder.stands_for(done),
            blob@ == record_bytes(done),
        decreases steps,
    {
        proof {
            assert forall|k: int| 0 <= k < heads@.len() implies match #[trigger] heads@[k] {
                Some(record) => left[k].len() > 0 && left[k][0] == record,
                None => left[k].len() == 0,
            } by {}
            lemma_least_source(left, left.len());
        }
        match find_least(&heads, Ghost(left)) {
            None => {
                proof {
                    assert(merge_steps(left, steps) =~= Seq::<SpillRecord>::empty());
                    assert(done =~= all);
                    assert forall|k: int| 0 <= k < start.len() implies (
                    #[trigger] start[k]).stream().1 by {
                        assert(left[k].len() == 0);
                        assert(heads@[k] is None);
                        assert(sources@[k].stream().1);
                    }
                }
                break ;
            },
            Some(s) => {
                let record: SpillRecord = match heads[s] {
                    Some(record) => record,
                    None => {
                        return Err(RecordError::UnexpectedEnd);
                    },
                };
                let ghost si = s as int;
                let ghost old_left = left;
                let ghost tail = left[si].skip(1);
                proof {
                    assert(steps > 0) by {
                        lemma_total_of_update(left, si, tail, left.len());
                    }
                    assert(merge_steps(left, steps) == seq![record] + merge_steps(
                        left.update(si, tail),
                        (steps - 1) as nat,
                    ));
                    lemma_merge_prefix_fits(done, record, left, steps);
                }
                match builder.push(record, Ghost(done)) {
                    Ok(()) => {},
                    Err(error) => {
                        proof {
                            if lookup_fits(all) {
                                lemma_prefix_fits(done.push(record), all);
                            }
                        }
                        return Err(error);
                    },
                }
                push_posting(&mut blob, record.posting());
                proof {
                    lemma_record_bytes_push(done, record);
                }
                let ghost before = sources@;
                let source = &mut sources[s];
                let next = source.next_record();
                match next {
                    Ok(head) => {
                        heads.set(s, head);
                        proof {
                            assert(sources@ =~= before.update(si, sources@[si]));
                            assert(tail =~= before[si].stream().0);
                            let fresh = pending(heads@, sources@);
                            assert forall|k: int| 0 <= k < fresh.len() implies #[trigger] fresh[k]
                                == old_left.update(si, tail)[k] by {
                                if k != si {
                                    assert(sources@[k] == before[k]);
                                } else {
                                    let stream = before[si].stream().0;
                                    if head is Some {
                                        assert(stream =~= seq![stream[0]] + stream.skip(1));
                                    } else {
                                        assert(fresh[k] =~= stream);
                                    }
                                }
                            }
                            assert(fresh =~= old_left.update(si, tail));
                            lemma_total_of_update(old_left, si, tail, old_left.len());
                            assert(done + (seq![record] + merge_steps(
                                fresh,
                                (steps - 1) as nat,
                            )) =~= done.push(record) + merge_steps(fresh, (steps - 1) as nat));
                            left = fresh;
                            steps = (steps - 1) as nat;
                            done = done.push(record);
                            assert forall|k: int| 0 <= k < sources@.len() implies (
                            #[trigger] sources@[k]).well_formed() by {
                                if k != si {
                                    assert(sources@[k] == before[k]);
                                }
                            }
                            assert forall|k: int| 0 <= k < start.len() implies (
                            #[trigger] sources@[k]).stream().1 == start[k].stream().1 by {
                                if k != si {
                                    assert(sources@[k] == before[k]);
                                }
                            }
                            assert forall|k: int|
                                0 <= k < heads@.len() && (
                                #[trigger] heads@[k]) is None implies sources@[k].stream().0.len()
                                == 0 && sources@[k].stream().1 by {
                                if k != si {
                                    assert(sources@[k] == before[k]);
                                }
                            }
                        }
                    },
                    Err(error) => {
                        proof {
                            assert(!before[si].stream().1);
                            assert(!start[si].stream().1);
                        }
                        return Err(error);
                    },
                }
            },
        }
    }
    Ok(MergedPostings { blob, lookup: builder.entries })
}

/// What has been merged so far and the next record make up the front of the whole.
proof fn lemma_merge_prefix_fits(
    done: Seq<SpillRecord>,
    record: SpillRecord,
    left: Seq<Seq<SpillRecord>>,
    steps: nat,
)
    requires
        steps > 0,
        merge_steps(left, steps).len() > 0,
        merge_steps(left, steps)[0] == record,
    ensures
        (done + merge_steps(left, steps)).take(done.len() as int + 1) == done.push(record),
{
    assert((done + merge_steps(left, steps)).take(done.len() as int + 1) =~= done.push(record));
}

proof fn lemma_spans_of_prefix(records: Seq<SpillRecord>, count: int)
    requires
        0 <= count <= records.len(),
    ensures
        spans_of(records.take(count)).len() <= spans_of(records).len(),
        forall|i: int|
            0 <= i < spans_of(records.take(count)).len() ==> (#[trigger] spans_of(
                records.take(count),
            )[i]).count <= spans_of(records)[i].count,
    decreases records.len() - count,
{
    if count == records.len() {
        assert(records.take(count) =~= records);
    } else {
        lemma_spans_of_prefix(records, count + 1);
        let longer = records.take(count + 1);
        assert(longer.drop_last() =~= records.take(count));
        let few = spans_of(records.take(count));
        let more = spans_of(longer);
        assert forall|i: int| 0 <= i < few.len() implies (#[trigger] few[i]).count
            <= spans_of(records)[i].count by {
            assert(few[i].count <= more[i].count);
        }
    }
}

/// What fits, fits in part.
pub(crate) proof fn lemma_prefix_fits(front: Seq<SpillRecord>, records: Seq<SpillRecord>)
    requires
        lookup_fits(records),
        front.len() <= records.len(),
        records.take(front.len() as int) == front,
    ensures
        lookup_fits(front),
{
    lemma_spans_of_prefix(records, front.len() as int);
    assert forall|i: int| 0 <= i < spans_of(front).len() implies (
    #[trigger] spans_of(front)[i]).count <= u32::MAX by {
        assert(spans_of(front)[i].count <= spans_of(records)[i].count);
    }
}

pub proof fn lemma_record_bytes_push(records: Seq<SpillRecord>, record: SpillRecord)
    ensures
        record_bytes(records.push(record)) == record_bytes(records) + posting_bytes(
            record_posting(record),
        ),
    decreases records.len(),
{
    let longer = records.push(record);
    if records.len() == 0 {
        assert(longer.skip(1) =~= Seq::<SpillRecord>::empty());
        assert(longer[0] == record);
        assert(record_bytes(longer.skip(1)) =~= Seq::<u8>::empty());
        assert(record_bytes(longer) =~= posting_bytes(record_posting(record)));
        assert(record_bytes(records) + posting_bytes(record_posting(record)) =~= posting_bytes(
            record_posting(record),
        ));
    } else {
        lemma_record_bytes_push(records.skip(1), record);
        assert(longer.skip(1) =~= records.skip(1).push(record));
        assert(record_bytes(longer) =~= record_bytes(records) + posting_bytes(
            record_posting(record),
        ));
    }
}

} // verus!
