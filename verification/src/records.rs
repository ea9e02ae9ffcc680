//! Posting records on their way into a cache file, and the segments that hold them meanwhile.

use crate::codec::lemma_u32_at;
use crate::codec::lemma_u32_round_trip;
use crate::codec::lemma_u64_at;
use crate::codec::lemma_u64_round_trip;
use crate::codec::read_u32;
use crate::codec::read_u64;
use crate::codec::u32_at;
use crate::codec::u32_bytes;
use crate::codec::u64_at;
use crate::codec::u64_bytes;
use crate::codec::write_u32;
use crate::codec::write_u64;
use crate::order::is_sorting_order;
use crate::order::sorting_order;
use crate::order::sorts_before;
use crate::order::TotalOrder;
use crate::postings::posting_bytes;
use crate::postings::push_posting;
use crate::postings::Posting;
use vstd::prelude::*;

verus! {

/// The format that files are written in.
pub const INDEX_VERSION: u32 = 4;

/// A posting with its trigram.
#[derive(Clone, Copy, Debug, PartialEq, Eq, Structural)]
pub struct SpillRecord {
    pub trigram: u32,
    pub file_id: u32,
    pub next_mask: u8,
    pub loc_mask: u8,
}

/// Why records cannot be had or written.
#[derive(Clone, Copy, Debug, PartialEq, Eq, Structural)]
pub enum RecordError {
    InvalidSpillMagic,
    InvalidSpillVersion,
    EmptySpillGroup,
    UnexpectedEnd,
    EmptySpill,
    SpillGroupTooLarge,
    UnreadablePostings,
    PostingsBlobTooLarge,
    PostingListTooLarge,
}

/// A source of records broke off.
pub open spec fn is_source_error(error: RecordError) -> bool {
    error is UnexpectedEnd || error is EmptySpillGroup || error is UnreadablePostings
}

pub open spec fn record_posting(record: SpillRecord) -> Posting {
    Posting {
        file_id: record.file_id,
        next_mask: record.next_mask,
        loc_mask: record.loc_mask,
    }
}

pub open spec fn record_postings(records: Seq<SpillRecord>) -> Seq<Posting> {
    records.map_values(|record: SpillRecord| record_posting(record))
}

impl SpillRecord {
    pub fn posting(&self) -> (posting: Posting)
        ensures
            posting == record_posting(*self),
    {
        Posting {
            file_id: self.file_id,
            next_mask: self.next_mask,
            loc_mask: self.loc_mask,
        }
    }
}

// ---------------------------------------------------------------------------------------------
// Order
// ---------------------------------------------------------------------------------------------

/// By trigram, then by file.
pub open spec fn record_at_most(a: SpillRecord, b: SpillRecord) -> bool {
    a.trigram < b.trigram || (a.trigram == b.trigram && a.file_id <= b.file_id)
}

pub open spec fn records_sorted(records: Seq<SpillRecord>) -> bool {
    forall|i: int, j: int|
        0 <= i < j < records.len() ==> record_at_most(#[trigger] records[i], #[trigger] records[j])
}

impl TotalOrder for SpillRecord {
    open spec fn at_most(&self, other: &Self) -> bool {
        record_at_most(*self, *other)
    }

    proof fn lemma_total(a: &Self, b: &Self) {
    }

    proof fn lemma_transitive(a: &Self, b: &Self, c: &Self) {
    }

    fn is_at_most(&self, other: &Self) -> (result: bool) {
        self.trigram < other.trigram || (self.trigram == other.trigram && self.file_id
            <= other.file_id)
    }
}

/// The elements of `items` in the order that `order` lists them in.
pub open spec fn reordered<T>(items: Seq<T>, order: Seq<usize>) -> Seq<T> {
    Seq::new(order.len(), |i: int| items[order[i] as int])
}

/// A list of all positions, each once, reorders without adding or losing anything.
pub proof fn lemma_reordering_keeps_items<T>(items: Seq<T>, order: Seq<usize>)
    requires
        order.len() == items.len(),
        order.no_duplicates(),
        forall|i: int| 0 <= i < order.len() ==> #[trigger] order[i] < items.len(),
        forall|p: usize| p < items.len() ==> #[trigger] order.contains(p),
    ensures
        reordered(items, order).to_multiset() == items.to_multiset(),
    decreases items.len(),
{
    broadcast use vstd::seq_lib::to_multiset_remove;

    let whole = reordered(items, order);
    if items.len() == 0 {
        assert(whole =~= items);
    } else {
        let top = (items.len() - 1) as usize;
        assert(top == items.len() - 1) by {
            assert(order[0] < items.len());
            lemma_length_fits(order, items.len() as int);
        }
        assert(order.contains(top));
        let k = order.index_of(top);
        let rest_order = order.remove(k);
        let rest = items.drop_last();
        assert forall|i: int| 0 <= i < rest_order.len() implies #[trigger] rest_order[i]
            < rest.len() by {
            let j = if i < k {
                i
            } else {
                i + 1
            };
            assert(rest_order[i] == order[j]);
            assert(order[j] != order[k]);
        }
        assert(rest_order.no_duplicates()) by {
            assert forall|i: int, j: int|
                0 <= i < rest_order.len() && 0 <= j < rest_order.len() && i
                    != j implies rest_order[i] != rest_order[j] by {
                let a = if i < k {
                    i
                } else {
                    i + 1
                };
                let b = if j < k {
                    j
                } else {
                    j + 1
                };
                assert(order[a] != order[b]);
            }
        }
        assert forall|p: usize| p < rest.len() implies #[trigger] rest_order.contains(p) by {
            assert(order.contains(p));
            let i = order.index_of(p);
            let m = if i < k {
                i
            } else {
                i - 1
            };
            assert(rest_order[m] == p);
        }
        lemma_reordering_keeps_items(rest, rest_order);
        assert(reordered(rest, rest_order) =~= whole.remove(k));
        assert(whole[k] == items.last());
        assert(items =~= rest.push(items.last()));
        whole.to_multiset_ensures();
        rest.to_multiset_ensures();
        assert(whole.remove(k).to_multiset() =~= whole.to_multiset().remove(whole[k]));
        assert(rest.push(items.last()).to_multiset() =~= rest.to_multiset().insert(items.last()));
        assert(whole.contains(whole[k]));
        assert(whole.to_multiset().count(whole[k]) > 0);
        assert(whole.to_multiset() =~= whole.to_multiset().remove(whole[k]).insert(whole[k]));
    }
}

/// Positions bounded by a length say that the length is small.
proof fn lemma_length_fits(order: Seq<usize>, len: int)
    requires
        order.len() == len,
        order.no_duplicates(),
        forall|i: int| 0 <= i < order.len() ==> #[trigger] order[i] < len,
    ensures
        len - 1 <= usize::MAX,
{
    if len - 1 > usize::MAX {
        let values = order.to_set();
        order.unique_seq_to_set();
        let bound = vstd::set_lib::set_int_range(0, usize::MAX + 1);
        vstd::set_lib::lemma_int_range(0, usize::MAX + 1);
        let ints = order.map_values(|p: usize| p as int);
        assert(ints.no_duplicates()) by {
            assert forall|i: int, j: int|
                0 <= i < ints.len() && 0 <= j < ints.len() && i != j implies ints[i]
                != ints[j] by {
                assert(order[i] != order[j]);
            }
        }
        ints.unique_seq_to_set();
        assert(ints.to_set().subset_of(bound));
        vstd::set_lib::lemma_len_subset(ints.to_set(), bound);
    }
}

pub proof fn lemma_sorting_order_is_distinct<T: TotalOrder>(items: Seq<T>, order: Seq<usize>)
    requires
        is_sorting_order(items, order),
    ensures
        order.no_duplicates(),
{
    assert forall|i: int, j: int| 0 <= i < order.len() && 0 <= j < order.len() && i
        != j implies order[i] != order[j] by {
        if i < j {
            assert(sorts_before(items, order[i], order[j]));
        } else {
            assert(sorts_before(items, order[j], order[i]));
        }
        T::lemma_total(&items[order[i] as int], &items[order[i] as int]);
    }
}

/// The records by trigram, then by file.
pub fn sort_records(records: &Vec<SpillRecord>) -> (sorted: Vec<SpillRecord>)
    ensures
        records_sorted(sorted@),
        sorted@.to_multiset() == records@.to_multiset(),
{
    let order = sorting_order(records.as_slice());
    let mut sorted: Vec<SpillRecord> = Vec::with_capacity(records.len());
    let mut k: usize = 0;
    while k < order.len()
        invariant
            is_sorting_order(records@, order@),
            k <= order@.len(),
            sorted@ == reordered(records@, order@).take(k as int),
        decreases order@.len() - k,
    {
        sorted.push(records[order[k]]);
        k += 1;
        assert(sorted@ =~= reordered(records@, order@).take(k as int));
    }
    proof {
        assert(sorted@ =~= reordered(records@, order@));
        lemma_sorting_order_is_distinct(records@, order@);
        lemma_reordering_keeps_items(records@, order@);
        assert forall|i: int, j: int| 0 <= i < j < sorted@.len() implies record_at_most(
            #[trigger] sorted@[i],
            #[trigger] sorted@[j],
        ) by {
            assert(sorts_before(records@, order@[i], order@[j]));
        }
    }
    sorted
}

// ---------------------------------------------------------------------------------------------
// Segments
// ---------------------------------------------------------------------------------------------

/// `AFTSPI01`
pub open spec fn spill_magic() -> Seq<u8> {
    seq![65u8, 70, 84, 83, 80, 73, 48, 49]
}

/// Where the group that starts at `start` ends: at the first record with another trigram.
pub open spec fn group_end(records: Seq<SpillRecord>, start: int, at: int) -> int
    decreases records.len() - at,
{
    if at >= records.len() {
        records.len() as int
    } else if records[at].trigram != records[start].trigram {
        at
    } else {
        group_end(records, start, at + 1)
    }
}

/// The postings of records, one after the other.
pub open spec fn record_bytes(records: Seq<SpillRecord>) -> Seq<u8>
    decreases records.len(),
{
    if records.len() == 0 {
        Seq::empty()
    } else {
        posting_bytes(record_posting(records[0])) + record_bytes(records.skip(1))
    }
}

/// The records from `start` on, group by group: trigram, number of postings, postings.
pub open spec fn groups_bytes(records: Seq<SpillRecord>, start: int) -> Seq<u8>
    decreases records.len() - start,
    via groups_bytes_decreases
{
    if start < 0 || start >= records.len() {
        Seq::empty()
    } else {
        let end = group_end(records, start, start);
        u32_bytes(records[start].trigram) + u32_bytes((end - start) as u32) + record_bytes(
            records.subrange(start, end),
        ) + groups_bytes(records, end)
    }
}

#[via_fn]
proof fn groups_bytes_decreases(records: Seq<SpillRecord>, start: int) {
    if 0 <= start < records.len() {
        lemma_group_end(records, start, start);
    }
}

proof fn lemma_group_end(records: Seq<SpillRecord>, start: int, at: int)
    requires
        0 <= start <= at <= records.len(),
    ensures
        at <= group_end(records, start, at) <= records.len(),
        start < records.len() ==> start < group_end(records, start, start),
        forall|i: int|
            at <= i < group_end(records, start, at) ==> (#[trigger] records[i]).trigram
                == records[start].trigram,
    decreases records.len() - at,
{
    if at < records.len() && records[at].trigram == records[start].trigram {
        lemma_group_end(records, start, at + 1);
    }
    if start < records.len() && start < at {
        lemma_group_end_moves(records, start, start + 1);
    } else if start < records.len() && at < records.len() {
        lemma_group_end_moves(records, start, start + 1);
    }
}

proof fn lemma_group_end_moves(records: Seq<SpillRecord>, start: int, at: int)
    requires
        0 <= start < at <= records.len(),
    ensures
        group_end(records, start, at) >= at,
    decreases records.len() - at,
{
    if at < records.len() && records[at].trigram == records[start].trigram {
        lemma_group_end_moves(records, start, at + 1);
    }
}

/// A segment file.
pub open spec fn segment_bytes(records: Seq<SpillRecord>) -> Seq<u8> {
    spill_magic() + u32_bytes(INDEX_VERSION) + u64_bytes(records.len() as u64) + groups_bytes(
        records,
        0,
    )
}

/// No group from `start` on is too long for its count.
pub open spec fn groups_fit(records: Seq<SpillRecord>, start: int) -> bool
    decreases records.len() - start,
    via groups_fit_decreases
{
    if start < 0 || start >= records.len() {
        true
    } else {
        let end = group_end(records, start, start);
        end - start <= u32::MAX && groups_fit(records, end)
    }
}

#[via_fn]
proof fn groups_fit_decreases(records: Seq<SpillRecord>, start: int) {
    if 0 <= start < records.len() {
        lemma_group_end(records, start, start);
    }
}

/// What a segment still holds from `at` on, and whether it ends as it should. `trigram` and
/// `in_group` say what is left of the group under way.
pub open spec fn segment_records(
    bytes: Seq<u8>,
    at: int,
    remaining: nat,
    trigram: u32,
    in_group: nat,
) -> (Seq<SpillRecord>, bool)
    decreases remaining,
{
    if remaining == 0 {
        (Seq::empty(), true)
    } else if in_group == 0 {
        if at + 8 > bytes.len() || u32_at(bytes, at + 4) == 0 || at + 14 > bytes.len() {
            (Seq::empty(), false)
        } else {
            let record = record_at(bytes, at + 8, u32_at(bytes, at));
            let rest = segment_records(
                bytes,
                at + 14,
                (remaining - 1) as nat,
                u32_at(bytes, at),
                (u32_at(bytes, at + 4) - 1) as nat,
            );
            (seq![record] + rest.0, rest.1)
        }
    } else if at + 6 > bytes.len() {
        (Seq::empty(), false)
    } else {
        let record = record_at(bytes, at, trigram);
        let rest = segment_records(
            bytes,
            at + 6,
            (remaining - 1) as nat,
            trigram,
            (in_group - 1) as nat,
        );
        (seq![record] + rest.0, rest.1)
    }
}

pub open spec fn record_at(bytes: Seq<u8>, at: int, trigram: u32) -> SpillRecord {
    SpillRecord {
        trigram,
        file_id: u32_at(bytes, at),
        next_mask: bytes[at + 4],
        loc_mask: bytes[at + 5],
    }
}

fn has_bytes_at(bytes: &[u8], at: usize, expected: &[u8]) -> (same: bool)
    requires
        at + expected@.len() <= bytes@.len(),
    ensures
        same == (bytes@.subrange(at as int, at + expected@.len()) == expected@),
{
    let mut i: usize = 0;
    assert(bytes@.len() == bytes.len());
    while i < expected.len()
        invariant
            at + expected@.len() <= bytes@.len(),
            bytes@.len() <= usize::MAX,
            i <= expected@.len(),
            forall|k: int| 0 <= k < i ==> bytes@[at + k] == #[trigger] expected@[k],
        decreases expected@.len() - i,
    {
        if bytes[at + i] != expected[i] {
            assert(bytes@.subrange(at as int, at + expected@.len())[i as int]
                != expected@[i as int]);
            return false;
        }
        i += 1;
    }
    assert(bytes@.subrange(at as int, at + expected@.len()) =~= expected@);
    true
}

/// `bytes` hold `expected` at `at`.
pub fn starts_with_at(bytes: &[u8], at: usize, expected: &[u8]) -> (same: bool)
    ensures
        same == (at + expected@.len() <= bytes@.len() && bytes@.subrange(
            at as int,
            at + expected@.len(),
        ) == expected@),
{
    if at > bytes.len() || expected.len() > bytes.len() - at {
        return false;
    }
    has_bytes_at(bytes, at, expected)
}

fn spill_magic_bytes() -> (magic: Vec<u8>)
    ensures
        magic@ == spill_magic(),
{
    let magic = vec![65u8, 70, 84, 83, 80, 73, 48, 49];
    assert(magic@ =~= spill_magic());
    magic
}

/// A segment of records, sorted by trigram, then by file.
pub fn write_spill_segment(block: &Vec<SpillRecord>) -> (segment: Result<Vec<u8>, RecordError>)
    ensures
        match segment {
            Ok(bytes) => {
                &&& block@.len() > 0
                &&& exists|records: Seq<SpillRecord>| #[trigger]
                    records_sorted(records) && records.to_multiset() == block@.to_multiset()
                        && groups_fit(records, 0) && bytes@ == segment_bytes(records)
            },
            Err(RecordError::EmptySpill) => block@.len() == 0,
            Err(RecordError::SpillGroupTooLarge) => {
                &&& block@.len() > 0
                &&& exists|records: Seq<SpillRecord>| #[trigger]
                    records_sorted(records) && records.to_multiset() == block@.to_multiset()
                        && !groups_fit(records, 0)
            },
            Err(_) => false,
        },
{
    if block.len() == 0 {
        return Err(RecordError::EmptySpill);
    }
    let records = sort_records(block);
    let mut bytes = spill_magic_bytes();
    write_u32(&mut bytes, INDEX_VERSION);
    proof {
        block@.to_multiset_ensures();
        records@.to_multiset_ensures();
        assert(block@.to_multiset().len() == records@.to_multiset().len());
    }
    write_u64(&mut bytes, records.len() as u64);
    let ghost head = bytes@;
    let mut index: usize = 0;
    proof {
        assert(head + groups_bytes(records@, 0) =~= segment_bytes(records@));
    }
    while index < records.len()
        invariant
            index <= records@.len(),
            block@.len() > 0,
            records_sorted(records@),
            records@.to_multiset() == block@.to_multiset(),
            bytes@ + groups_bytes(records@, index as int) == segment_bytes(records@),
            groups_fit(records@, 0) == groups_fit(records@, index as int),
        decreases records@.len() - index,
    {
        let trigram: u32 = records[index].trigram;
        let group_start: usize = index;
        proof {
            lemma_group_end(records@, group_start as int, group_start as int);
        }
        while index < records.len() && records[index].trigram == trigram
            invariant
                group_start < records@.len(),
                trigram == records@[group_start as int].trigram,
                group_start <= index <= records@.len(),
                group_end(records@, group_start as int, group_start as int) == group_end(
                    records@,
                    group_start as int,
                    index as int,
                ),
            decreases records@.len() - index,
        {
            index += 1;
        }
        let ghost end = group_end(records@, group_start as int, group_start as int);
        assert(end == index);
        let count: usize = index - group_start;
        if count as u64 > u32::MAX as u64 {
            return Err(RecordError::SpillGroupTooLarge);
        }
        let ghost before = bytes@;
        write_u32(&mut bytes, trigram);
        write_u32(&mut bytes, count as u32);
        let ghost mid = bytes@;
        let mut k: usize = group_start;
        proof {
            assert(records@.subrange(group_start as int, end).skip(0) =~= records@.subrange(
                group_start as int,
                end,
            ));
        }
        while k < index
            invariant
                group_start <= k <= index <= records@.len(),
                bytes@ + record_bytes(records@.subrange(k as int, index as int)) == mid
                    + record_bytes(records@.subrange(group_start as int, index as int)),
            decreases index - k,
        {
            let ghost earlier = bytes@;
            push_posting(&mut bytes, records[k].posting());
            proof {
                let rest = records@.subrange(k as int, index as int);
                assert(rest[0] == records@[k as int]);
                assert(rest.skip(1) =~= records@.subrange(k + 1, index as int));
                assert(earlier + (posting_bytes(record_posting(rest[0])) + record_bytes(
                    rest.skip(1),
                )) =~= bytes@ + record_bytes(rest.skip(1)));
            }
            k += 1;
        }
        proof {
            let group = records@.subrange(group_start as int, index as int);
            assert(records@.subrange(index as int, index as int) =~= Seq::<SpillRecord>::empty());
            assert(bytes@ =~= mid + record_bytes(group));
            let rest = groups_bytes(records@, index as int);
            assert(before + groups_bytes(records@, group_start as int) =~= bytes@ + rest);
        }
    }
    proof {
        assert(groups_bytes(records@, index as int) =~= Seq::<u8>::empty());
        assert(bytes@ =~= segment_bytes(records@));
    }
    Ok(bytes)
}

/// A segment under way of being read.
pub struct SpillSegmentSource {
    pub bytes: Vec<u8>,
    pub at: usize,
    pub remaining_records: u64,
    pub current_trigram: u32,
    pub remaining_in_group: u32,
}

/// Why bytes do not begin as a segment.
pub open spec fn open_error(bytes: Seq<u8>) -> Option<RecordError> {
    if bytes.len() < 8 {
        Some(RecordError::UnexpectedEnd)
    } else if bytes.subrange(0, 8) != spill_magic() {
        Some(RecordError::InvalidSpillMagic)
    } else if bytes.len() < 12 {
        Some(RecordError::UnexpectedEnd)
    } else if u32_at(bytes, 8) != INDEX_VERSION {
        Some(RecordError::InvalidSpillVersion)
    } else if bytes.len() < 20 {
        Some(RecordError::UnexpectedEnd)
    } else {
        None
    }
}

impl SpillSegmentSource {
    pub open spec fn well_formed(&self) -> bool {
        self.at <= self.bytes@.len()
    }

    /// The records to come, and whether the segment ends as it should.
    pub open spec fn stream(&self) -> (Seq<SpillRecord>, bool) {
        segment_records(
            self.bytes@,
            self.at as int,
            self.remaining_records as nat,
            self.current_trigram,
            self.remaining_in_group as nat,
        )
    }

    /// Starts reading a segment.
    pub fn open(bytes: Vec<u8>) -> (source: Result<SpillSegmentSource, RecordError>)
        ensures
            match source {
                Ok(source) => {
                    &&& open_error(bytes@) is None
                    &&& source.well_formed()
                    &&& source.bytes@ == bytes@
                    &&& source.at == 20
                    &&& source.remaining_records == u64_at(bytes@, 12)
                    &&& source.current_trigram == 0
                    &&& source.remaining_in_group == 0
                    &&& source.stream() == segment_records(
                        bytes@,
                        20,
                        u64_at(bytes@, 12) as nat,
                        0,
                        0,
                    )
                },
                Err(error) => open_error(bytes@) == Some(error),
            },
    {
        if bytes.len() < 8 {
            return Err(RecordError::UnexpectedEnd);
        }
        let magic = spill_magic_bytes();
        if !starts_with_at(bytes.as_slice(), 0, magic.as_slice()) {
            return Err(RecordError::InvalidSpillMagic);
        }
        if bytes.len() < 12 {
            return Err(RecordError::UnexpectedEnd);
        }
        if read_u32(bytes.as_slice(), 8) != INDEX_VERSION {
            return Err(RecordError::InvalidSpillVersion);
        }
        if bytes.len() < 20 {
            return Err(RecordError::UnexpectedEnd);
        }
        let remaining_records: u64 = read_u64(bytes.as_slice(), 12);
        Ok(
            SpillSegmentSource {
                bytes,
                at: 20,
                remaining_records,
                current_trigram: 0,
                remaining_in_group: 0,
            },
        )
    }

    /// The next record, where there is one.
    pub fn next_record(&mut self) -> (record: Result<Option<SpillRecord>, RecordError>)
        requires
            old(self).well_formed(),
        ensures
            match record {
                Ok(Some(record)) => {
                    &&& final(self).well_formed()
                    &&& old(self).stream().0.len() > 0
                    &&& record == old(self).stream().0[0]
                    &&& final(self).stream() == (old(self).stream().0.skip(1), old(
                        self,
                    ).stream().1)
                },
                Ok(None) => {
                    &&& *final(self) == *old(self)
                    &&& old(self).stream().0.len() == 0
                    &&& old(self).stream().1
                },
                Err(error) => {
                    &&& old(self).stream().0.len() == 0
                    &&& !old(self).stream().1
                    &&& error == (if old(self).remaining_in_group == 0 && old(self).at + 8
                        <= old(self).bytes@.len() && u32_at(old(self).bytes@, old(self).at + 4)
                        == 0 {
                        RecordError::EmptySpillGroup
                    } else {
                        RecordError::UnexpectedEnd
                    })
                },
            },
    {
        if self.remaining_records == 0 {
            return Ok(None);
        }
        let ghost before = *self;
        if self.remaining_in_group == 0 {
            if self.bytes.len() - self.at < 8 {
                return Err(RecordError::UnexpectedEnd);
            }
            self.current_trigram = read_u32(self.bytes.as_slice(), self.at);
            self.remaining_in_group = read_u32(self.bytes.as_slice(), self.at + 4);
            self.at = self.at + 8;
            if self.remaining_in_group == 0 {
                return Err(RecordError::EmptySpillGroup);
            }
        }
        if self.bytes.len() - self.at < 6 {
            return Err(RecordError::UnexpectedEnd);
        }
        let record = SpillRecord {
            trigram: self.current_trigram,
            file_id: read_u32(self.bytes.as_slice(), self.at),
            next_mask: self.bytes[self.at + 4],
            loc_mask: self.bytes[self.at + 5],
        };
        self.at = self.at + 6;
        self.remaining_in_group = self.remaining_in_group - 1;
        self.remaining_records = self.remaining_records - 1;
        proof {
            assert(before.stream().0.skip(1) =~= self.stream().0);
        }
        Ok(Some(record))
    }
}


// ---------------------------------------------------------------------------------------------
// Laws
// ---------------------------------------------------------------------------------------------

proof fn lemma_record_read(bytes: Seq<u8>, at: int, record: SpillRecord, rest: Seq<u8>)
    requires
        0 <= at <= bytes.len(),
        bytes.skip(at) == posting_bytes(record_posting(record)) + rest,
    ensures
        at + 6 <= bytes.len(),
        record_at(bytes, at, record.trigram) == record,
        bytes.skip(at + 6) == rest,
{
    let tail = bytes.skip(at);
    lemma_u32_round_trip(record.file_id);
    assert(tail.len() == 6 + rest.len());
    assert(bytes.subrange(at, at + 4) =~= u32_bytes(record.file_id)) by {
        assert forall|i: int| 0 <= i < 4 implies bytes.subrange(at, at + 4)[i] == u32_bytes(
            record.file_id,
        )[i] by {
            assert(tail[i] == bytes[at + i]);
        }
    }
    lemma_u32_at(bytes, at, record.file_id);
    assert(tail[4] == bytes[at + 4]);
    assert(tail[5] == bytes[at + 5]);
    assert(bytes.skip(at + 6) =~= rest) by {
        assert forall|i: int| 0 <= i < rest.len() implies bytes.skip(at + 6)[i] == rest[i] by {
            assert(tail[6 + i] == bytes[at + 6 + i]);
        }
    }
}

proof fn lemma_group_survives(
    bytes: Seq<u8>,
    at: int,
    records: Seq<SpillRecord>,
    k: int,
    end: int,
)
    requires
        0 <= at <= bytes.len(),
        0 <= k <= end <= records.len(),
        groups_fit(records, end),
        k < end ==> forall|i: int|
            k <= i < end ==> (#[trigger] records[i]).trigram == records[k].trigram,
        bytes.skip(at) == record_bytes(records.subrange(k, end)) + groups_bytes(records, end),
    ensures
        forall|trigram: u32|
            (k < end ==> trigram == records[k].trigram) ==> #[trigger] segment_records(
                bytes,
                at,
                (records.len() - k) as nat,
                trigram,
                (end - k) as nat,
            ) == (records.skip(k), true),
    decreases records.len() - k, 1int,
{
    if k == end {
        assert(records.subrange(k, end) =~= Seq::<SpillRecord>::empty());
        assert(bytes.skip(at) =~= groups_bytes(records, end));
        lemma_groups_survive(bytes, at, records, end);
    } else {
        let group = records.subrange(k, end);
        assert(group[0] == records[k]);
        assert(group.skip(1) =~= records.subrange(k + 1, end));
        let rest = record_bytes(group.skip(1)) + groups_bytes(records, end);
        assert(bytes.skip(at) =~= posting_bytes(record_posting(records[k])) + rest);
        lemma_record_read(bytes, at, records[k], rest);
        lemma_group_survives(bytes, at + 6, records, k + 1, end);
        let later = segment_records(
            bytes,
            at + 6,
            (records.len() - (k + 1)) as nat,
            records[k].trigram,
            (end - (k + 1)) as nat,
        );
        assert(k + 1 < end ==> records[k + 1].trigram == records[k].trigram);
        assert(later == (records.skip(k + 1), true));
        assert(seq![records[k]] + records.skip(k + 1) =~= records.skip(k));
    }
}

proof fn lemma_groups_survive(bytes: Seq<u8>, at: int, records: Seq<SpillRecord>, start: int)
    requires
        0 <= at <= bytes.len(),
        0 <= start <= records.len(),
        groups_fit(records, start),
        bytes.skip(at) == groups_bytes(records, start),
    ensures
        forall|trigram: u32| #[trigger]
            segment_records(bytes, at, (records.len() - start) as nat, trigram, 0) == (
                records.skip(start),
                true,
            ),
    decreases records.len() - start, 0int,
{
    if start == records.len() {
        assert(records.skip(start) =~= Seq::<SpillRecord>::empty());
    } else {
        let end = group_end(records, start, start);
        lemma_group_end(records, start, start);
        let t = records[start].trigram;
        let count = (end - start) as u32;
        let group = records.subrange(start, end);
        let tail = bytes.skip(at);
        lemma_u32_round_trip(t);
        lemma_u32_round_trip(count);
        let body = record_bytes(group) + groups_bytes(records, end);
        assert(tail =~= u32_bytes(t) + u32_bytes(count) + body);
        assert(bytes.subrange(at, at + 4) =~= u32_bytes(t)) by {
            assert forall|i: int| 0 <= i < 4 implies bytes.subrange(at, at + 4)[i] == u32_bytes(
                t,
            )[i] by {
                assert(tail[i] == bytes[at + i]);
            }
        }
        assert(bytes.subrange(at + 4, at + 8) =~= u32_bytes(count)) by {
            assert forall|i: int| 0 <= i < 4 implies bytes.subrange(at + 4, at + 8)[i]
                == u32_bytes(count)[i] by {
                assert(tail[4 + i] == bytes[at + 4 + i]);
            }
        }
        lemma_u32_at(bytes, at, t);
        lemma_u32_at(bytes, at + 4, count);
        assert(bytes.skip(at + 8) =~= body) by {
            assert forall|i: int| 0 <= i < body.len() implies bytes.skip(at + 8)[i] == body[i] by {
                assert(tail[8 + i] == bytes[at + 8 + i]);
            }
        }
        assert(group[0] == records[start]);
        assert(group.skip(1) =~= records.subrange(start + 1, end));
        let rest = record_bytes(group.skip(1)) + groups_bytes(records, end);
        assert(body =~= posting_bytes(record_posting(records[start])) + rest);
        lemma_record_read(bytes, at + 8, records[start], rest);
        lemma_group_survives(bytes, at + 14, records, start + 1, end);
        let later = segment_records(
            bytes,
            at + 14,
            (records.len() - (start + 1)) as nat,
            t,
            (end - (start + 1)) as nat,
        );
        assert(later == (records.skip(start + 1), true));
        assert(seq![records[start]] + records.skip(start + 1) =~= records.skip(start));
    }
}

/// A segment read back gives the records that were written.
pub proof fn lemma_segment_survives(records: Seq<SpillRecord>)
    requires
        records.len() <= u64::MAX,
        groups_fit(records, 0),
    ensures
        ({
            let bytes = segment_bytes(records);
            &&& bytes.len() >= 20
            &&& bytes.subrange(0, 8) == spill_magic()
            &&& u32_at(bytes, 8) == INDEX_VERSION
            &&& segment_records(bytes, 20, u64_at(bytes, 12) as nat, 0, 0) == (records, true)
        }),
{
    let bytes = segment_bytes(records);
    let body = groups_bytes(records, 0);
    lemma_u32_round_trip(INDEX_VERSION);
    lemma_u64_round_trip(records.len() as u64);
    assert(bytes.len() == 20 + body.len());
    assert(bytes.subrange(0, 8) =~= spill_magic());
    assert(bytes.subrange(8, 12) =~= u32_bytes(INDEX_VERSION));
    assert(bytes.subrange(12, 20) =~= u64_bytes(records.len() as u64));
    lemma_u32_at(bytes, 8, INDEX_VERSION);
    lemma_u64_at(bytes, 12, records.len() as u64);
    assert(bytes.skip(20) =~= body);
    lemma_groups_survive(bytes, 20, records, 0);
    assert(records.skip(0) =~= records);
    assert((records.len() - 0) as nat == u64_at(bytes, 12) as nat);
    assert(segment_records(bytes, 20, (records.len() - 0) as nat, 0u32, 0) == (
        records.skip(0),
        true,
    ));
}

} // verus!
