//! Laws of merging: nothing is lost, lists come out in order, and each list stands where the lookup
//! table says.

use crate::merge::least_source;
use crate::merge::lookup_fits;
use crate::merge::lookup_of;
use crate::merge::merge_steps;
use crate::merge::merged;
use crate::merge::span_entry;
use crate::merge::spans_of;
use crate::merge::total_records;
use crate::merge::Span;
use crate::postings::ascending_lookup;
use crate::postings::entry_for;
use crate::postings::lemma_posting_list_concat;
use crate::postings::lemma_posting_list_len;
use crate::postings::lemma_postings_survive_disk;
use crate::postings::lookup_holds;
use crate::postings::posting_bytes;
use crate::postings::posting_list_bytes;
use crate::postings::postings_of;
use crate::postings::Posting;
use crate::records::record_at_most;
use crate::records::record_bytes;
use crate::records::record_posting;
use crate::records::record_postings;
use crate::records::records_sorted;
use crate::records::SpillRecord;
use vstd::multiset::Multiset;
use vstd::prelude::*;

verus! {

// ---------------------------------------------------------------------------------------------
// Nothing is lost
// ---------------------------------------------------------------------------------------------

/// The records of the first `count` sources, together.
pub open spec fn all_records(streams: Seq<Seq<SpillRecord>>, count: nat) -> Multiset<SpillRecord>
    decreases count,
{
    if count == 0 {
        Multiset::empty()
    } else {
        all_records(streams, (count - 1) as nat).add(streams[count - 1].to_multiset())
    }
}

proof fn lemma_all_records_of_update(
    streams: Seq<Seq<SpillRecord>>,
    at: int,
    stream: Seq<SpillRecord>,
    count: nat,
)
    requires
        0 <= at < streams.len(),
        count <= streams.len(),
    ensures
        at < count ==> all_records(streams.update(at, stream), count).add(
            streams[at].to_multiset(),
        ) == all_records(streams, count).add(stream.to_multiset()),
        at >= count ==> all_records(streams.update(at, stream), count) == all_records(
            streams,
            count,
        ),
    decreases count,
{
    if count > 0 {
        lemma_all_records_of_update(streams, at, stream, (count - 1) as nat);
        if at < count {
            let changed = streams.update(at, stream);
            let (old_front, new_front) = (
                all_records(streams, (count - 1) as nat),
                all_records(changed, (count - 1) as nat),
            );
            assert(all_records(changed, count) == new_front.add(changed[count - 1].to_multiset()));
            assert forall|r: SpillRecord| all_records(changed, count).add(
                streams[at].to_multiset(),
            ).count(r) == all_records(streams, count).add(stream.to_multiset()).count(r) by {
                if at < count - 1 {
                    assert(changed[count - 1] == streams[count - 1]);
                    assert(new_front.add(streams[at].to_multiset()).count(r) == old_front.add(
                        stream.to_multiset(),
                    ).count(r));
                } else {
                    assert(changed[count - 1] == stream);
                    assert(new_front == old_front);
                }
            }
            assert(all_records(changed, count).add(streams[at].to_multiset()) =~= all_records(
                streams,
                count,
            ).add(stream.to_multiset()));
        }
    }
}

proof fn lemma_total_of_update(
    streams: Seq<Seq<SpillRecord>>,
    at: int,
    stream: Seq<SpillRecord>,
    count: nat,
)
    requires
        0 <= at < streams.len(),
        count <= streams.len(),
    ensures
        total_records(streams.update(at, stream), count) == total_records(streams, count) + (
        if at < count {
            stream.len() - streams[at].len()
        } else {
            0
        }),
    decreases count,
{
    if count > 0 {
        lemma_total_of_update(streams, at, stream, (count - 1) as nat);
    }
}

proof fn lemma_least_source(streams: Seq<Seq<SpillRecord>>, count: nat)
    requires
        count <= streams.len(),
    ensures
        match least_source(streams, count) {
            Some(s) => {
                &&& 0 <= s < count
                &&& streams[s].len() > 0
                &&& forall|i: int|
                    0 <= i < count && (#[trigger] streams[i]).len() > 0 ==> record_at_most(
                        streams[s][0],
                        streams[i][0],
                    )
            },
            None => total_records(streams, count) == 0 && forall|i: int|
                0 <= i < count ==> (#[trigger] streams[i]).len() == 0,
        },
    decreases count,
{
    if count > 0 {
        lemma_least_source(streams, (count - 1) as nat);
    }
}

proof fn lemma_no_records(streams: Seq<Seq<SpillRecord>>, count: nat)
    requires
        count <= streams.len(),
        total_records(streams, count) == 0,
    ensures
        all_records(streams, count) == Multiset::<SpillRecord>::empty(),
    decreases count,
{
    if count > 0 {
        lemma_no_records(streams, (count - 1) as nat);
        let last = streams[count - 1];
        last.to_multiset_ensures();
        assert(last.to_multiset() =~= Multiset::empty());
        assert(all_records(streams, count) =~= Multiset::empty());
    }
}

/// Merging neither adds nor loses a record.
pub proof fn lemma_merge_keeps_records(streams: Seq<Seq<SpillRecord>>)
    ensures
        merged(streams).to_multiset() == all_records(streams, streams.len()),
{
    lemma_merge_steps_keep_records(streams, total_records(streams, streams.len()));
}

proof fn lemma_merge_steps_keep_records(streams: Seq<Seq<SpillRecord>>, steps: nat)
    requires
        steps == total_records(streams, streams.len()),
    ensures
        merge_steps(streams, steps).to_multiset() == all_records(streams, streams.len()),
    decreases steps,
{
    lemma_least_source(streams, streams.len());
    if steps == 0 {
        lemma_no_records(streams, streams.len());
        merge_steps(streams, steps).to_multiset_ensures();
        assert(merge_steps(streams, steps).to_multiset() =~= Multiset::empty());
    } else {
        let s = least_source(streams, streams.len())->0;
        let head = streams[s][0];
        let tail = streams[s].skip(1);
        let rest = streams.update(s, tail);
        lemma_total_of_update(streams, s, tail, streams.len());
        lemma_merge_steps_keep_records(rest, (steps - 1) as nat);
        lemma_all_records_of_update(streams, s, tail, streams.len());
        let later = merge_steps(rest, (steps - 1) as nat);
        vstd::seq_lib::lemma_multiset_commutative(seq![head], later);
        vstd::seq_lib::lemma_multiset_commutative(seq![head], tail);
        assert(seq![head] + tail =~= streams[s]);
        let before = all_records(streams, streams.len());
        let after = all_records(rest, rest.len());
        assert(merge_steps(streams, steps) == seq![head] + later);
        assert(after.add(streams[s].to_multiset()) == before.add(tail.to_multiset()));
        assert(streams[s].to_multiset() == seq![head].to_multiset().add(tail.to_multiset()));
        assert forall|r: SpillRecord| seq![head].to_multiset().add(after).count(r)
            == before.count(r) by {
            assert(after.add(streams[s].to_multiset()).count(r) == before.add(
                tail.to_multiset(),
            ).count(r));
        }
        assert(seq![head].to_multiset().add(after) =~= before);
    }
}

// ---------------------------------------------------------------------------------------------
// Lists come out in order
// ---------------------------------------------------------------------------------------------

/// Every record still to come has `record` before it.
spec fn none_before(record: SpillRecord, streams: Seq<Seq<SpillRecord>>) -> bool {
    forall|i: int, k: int|
        #![trigger streams[i][k]]
        0 <= i < streams.len() && 0 <= k < streams[i].len() ==> record_at_most(
            record,
            streams[i][k],
        )
}

spec fn streams_sorted(streams: Seq<Seq<SpillRecord>>) -> bool {
    forall|i: int| 0 <= i < streams.len() ==> records_sorted(#[trigger] streams[i])
}

proof fn lemma_merge_steps_sorted(streams: Seq<Seq<SpillRecord>>, steps: nat, least: SpillRecord)
    requires
        streams_sorted(streams),
        none_before(least, streams),
    ensures
        records_sorted(merge_steps(streams, steps)),
        forall|i: int|
            0 <= i < merge_steps(streams, steps).len() ==> record_at_most(
                least,
                #[trigger] merge_steps(streams, steps)[i],
            ),
    decreases steps,
{
    lemma_least_source(streams, streams.len());
    if steps > 0 {
        if let Some(s) = least_source(streams, streams.len()) {
            let head = streams[s][0];
            let tail = streams[s].skip(1);
            let rest = streams.update(s, tail);
            assert(record_at_most(least, streams[s][0]));
            assert(records_sorted(streams[s]));
            assert(records_sorted(tail)) by {
                assert forall|i: int, j: int| 0 <= i < j < tail.len() implies record_at_most(
                    #[trigger] tail[i],
                    #[trigger] tail[j],
                ) by {
                    assert(tail[i] == streams[s][i + 1] && tail[j] == streams[s][j + 1]);
                }
            }
            assert(streams_sorted(rest)) by {
                assert forall|i: int| 0 <= i < rest.len() implies records_sorted(
                    #[trigger] rest[i],
                ) by {
                    if i != s {
                        assert(rest[i] == streams[i]);
                    }
                }
            }
            assert(none_before(head, rest)) by {
                assert forall|i: int, k: int|
                    #![trigger rest[i][k]]
                    0 <= i < rest.len() && 0 <= k < rest[i].len() implies record_at_most(
                    head,
                    rest[i][k],
                ) by {
                    if i == s {
                        assert(rest[i][k] == streams[s][k + 1]);
                        assert(record_at_most(streams[s][0], streams[s][k + 1]));
                    } else {
                        assert(rest[i] == streams[i]);
                        assert(records_sorted(streams[i]));
                        assert(record_at_most(head, streams[i][0]));
                        if k > 0 {
                            assert(record_at_most(streams[i][0], streams[i][k]));
                        }
                    }
                }
            }
            lemma_merge_steps_sorted(rest, (steps - 1) as nat, head);
            let later = merge_steps(rest, (steps - 1) as nat);
            let whole = merge_steps(streams, steps);
            assert(whole == seq![head] + later);
            assert forall|i: int| 0 <= i < whole.len() implies record_at_most(
                least,
                #[trigger] whole[i],
            ) by {
                if i > 0 {
                    assert(whole[i] == later[i - 1]);
                    assert(record_at_most(head, later[i - 1]));
                }
            }
            assert forall|i: int, j: int| 0 <= i < j < whole.len() implies record_at_most(
                #[trigger] whole[i],
                #[trigger] whole[j],
            ) by {
                assert(whole[j] == later[j - 1]);
                if i == 0 {
                    assert(record_at_most(head, later[j - 1]));
                } else {
                    assert(whole[i] == later[i - 1]);
                }
            }
        }
    }
}

/// Merging sources that are in order gives records that are in order.
pub proof fn lemma_merge_is_sorted(streams: Seq<Seq<SpillRecord>>)
    requires
        forall|i: int| 0 <= i < streams.len() ==> records_sorted(#[trigger] streams[i]),
    ensures
        records_sorted(merged(streams)),
{
    let least = SpillRecord { trigram: 0, file_id: 0, next_mask: 0, loc_mask: 0 };
    lemma_merge_steps_sorted(streams, total_records(streams, streams.len()), least);
}

spec fn streams_grouped(streams: Seq<Seq<SpillRecord>>) -> bool {
    forall|i: int| 0 <= i < streams.len() ==> trigrams_sorted(#[trigger] streams[i])
}

proof fn lemma_merge_steps_grouped(streams: Seq<Seq<SpillRecord>>, steps: nat, least: u32)
    requires
        streams_grouped(streams),
        forall|i: int, k: int|
            #![trigger streams[i][k]]
            0 <= i < streams.len() && 0 <= k < streams[i].len() ==> least <= streams[i][k].trigram,
    ensures
        trigrams_sorted(merge_steps(streams, steps)),
        forall|i: int|
            0 <= i < merge_steps(streams, steps).len() ==> least <= (#[trigger] merge_steps(
                streams,
                steps,
            )[i]).trigram,
    decreases steps,
{
    lemma_least_source(streams, streams.len());
    if steps > 0 {
        if let Some(s) = least_source(streams, streams.len()) {
            let head = streams[s][0];
            let tail = streams[s].skip(1);
            let rest = streams.update(s, tail);
            assert(least <= streams[s][0].trigram);
            assert(trigrams_sorted(streams[s]));
            assert(streams_grouped(rest)) by {
                assert forall|i: int| 0 <= i < rest.len() implies trigrams_sorted(
                    #[trigger] rest[i],
                ) by {
                    if i != s {
                        assert(rest[i] == streams[i]);
                    } else {
                        assert forall|a: int, b: int| 0 <= a < b < tail.len() implies (
                        #[trigger] tail[a]).trigram <= (#[trigger] tail[b]).trigram by {
                            assert(tail[a] == streams[s][a + 1] && tail[b] == streams[s][b + 1]);
                        }
                    }
                }
            }
            assert forall|i: int, k: int|
                #![trigger rest[i][k]]
                0 <= i < rest.len() && 0 <= k < rest[i].len() implies head.trigram
                <= rest[i][k].trigram by {
                if i == s {
                    assert(rest[i][k] == streams[s][k + 1]);
                    assert(streams[s][0].trigram <= streams[s][k + 1].trigram);
                } else {
                    assert(rest[i] == streams[i]);
                    assert(trigrams_sorted(streams[i]));
                    assert(record_at_most(head, streams[i][0]));
                    if k > 0 {
                        assert(streams[i][0].trigram <= streams[i][k].trigram);
                    }
                }
            }
            lemma_merge_steps_grouped(rest, (steps - 1) as nat, head.trigram);
            let later = merge_steps(rest, (steps - 1) as nat);
            let whole = merge_steps(streams, steps);
            assert(whole == seq![head] + later);
            assert forall|i: int| 0 <= i < whole.len() implies least <= (
            #[trigger] whole[i]).trigram by {
                if i > 0 {
                    assert(whole[i] == later[i - 1]);
                }
            }
            assert forall|i: int, j: int| 0 <= i < j < whole.len() implies (
            #[trigger] whole[i]).trigram <= (#[trigger] whole[j]).trigram by {
                assert(whole[j] == later[j - 1]);
                if i > 0 {
                    assert(whole[i] == later[i - 1]);
                }
            }
        }
    }
}

/// Merging sources whose records are in the order of trigrams gives records in that order.
pub proof fn lemma_merge_groups_trigrams(streams: Seq<Seq<SpillRecord>>)
    requires
        forall|i: int| 0 <= i < streams.len() ==> trigrams_sorted(#[trigger] streams[i]),
    ensures
        trigrams_sorted(merged(streams)),
{
    lemma_merge_steps_grouped(streams, total_records(streams, streams.len()), 0);
}

// ---------------------------------------------------------------------------------------------
// Each list stands where the lookup table says
// ---------------------------------------------------------------------------------------------

/// The record at `k` stands in the span of its trigram.
pub open spec fn covered(spans: Seq<Span>, records: Seq<SpillRecord>, k: int) -> bool {
    exists|i: int|
        0 <= i < spans.len() && (#[trigger] spans[i]).first <= k < spans[i].first + spans[i].count
            && records[k].trigram == spans[i].trigram
}

/// The spans stand side by side, and each holds the records of its trigram.
pub open spec fn spans_tile(spans: Seq<Span>, records: Seq<SpillRecord>) -> bool {
    &&& forall|i: int|
        0 <= i < spans.len() ==> {
            let span = #[trigger] spans[i];
            &&& 0 <= span.first
            &&& 1 <= span.count
            &&& span.first + span.count <= records.len()
            &&& forall|k: int|
                span.first <= k < span.first + span.count ==> (#[trigger] records[k]).trigram
                    == span.trigram
        }
    &&& forall|i: int, j: int|
        0 <= i < j < spans.len() ==> (#[trigger] spans[i]).first + spans[i].count <= (
        #[trigger] spans[j]).first
    &&& forall|k: int| 0 <= k < records.len() ==> #[trigger] covered(spans, records, k)
    &&& spans.len() > 0 ==> spans.last().first + spans.last().count == records.len()
    &&& records.len() > 0 ==> spans.len() > 0 && spans.last().trigram == records.last().trigram
}

pub proof fn lemma_spans_tile(records: Seq<SpillRecord>)
    ensures
        spans_tile(spans_of(records), records),
    decreases records.len(),
{
    if records.len() > 0 {
        let prev = records.drop_last();
        lemma_spans_tile(prev);
        let earlier = spans_of(prev);
        let spans = spans_of(records);
        let trigram = records.last().trigram;
        let joins = earlier.len() > 0 && earlier.last().trigram == trigram;
        assert(records[records.len() - 1] == records.last());
        assert forall|i: int| 0 <= i < spans.len() implies {
            let span = #[trigger] spans[i];
            &&& 0 <= span.first
            &&& 1 <= span.count
            &&& span.first + span.count <= records.len()
            &&& forall|k: int|
                span.first <= k < span.first + span.count ==> (#[trigger] records[k]).trigram
                    == span.trigram
        } by {
            let span = spans[i];
            if i < earlier.len() {
                let old = earlier[i];
                assert(span.first == old.first && span.trigram == old.trigram);
                assert forall|k: int| span.first <= k < span.first + span.count implies (
                #[trigger] records[k]).trigram == span.trigram by {
                    if k < prev.len() {
                        assert(prev[k] == records[k]);
                        if k < old.first + old.count {
                            assert(prev[k].trigram == old.trigram);
                        }
                    }
                }
            }
        }
        assert forall|i: int, j: int| 0 <= i < j < spans.len() implies (
        #[trigger] spans[i]).first + spans[i].count <= (#[trigger] spans[j]).first by {
            assert(spans[i] == earlier[i]);
            if j < earlier.len() {
                assert(earlier[i].first + earlier[i].count <= earlier[j].first);
            } else {
                assert(earlier[i].first + earlier[i].count <= prev.len());
            }
        }
        assert forall|k: int| 0 <= k < records.len() implies #[trigger] covered(
            spans,
            records,
            k,
        ) by {
            if k < prev.len() {
                assert(prev[k].trigram == records[k].trigram);
                assert(covered(earlier, prev, k));
                let i = choose|i: int|
                    0 <= i < earlier.len() && (#[trigger] earlier[i]).first <= k
                        < earlier[i].first + earlier[i].count && prev[k].trigram
                        == earlier[i].trigram;
                assert(spans[i].first == earlier[i].first && spans[i].trigram
                    == earlier[i].trigram && spans[i].count >= earlier[i].count);
            } else {
                let i = spans.len() - 1;
                assert(spans[i].first <= k < spans[i].first + spans[i].count);
            }
        }
    }
}

/// The records of a trigram stand together, in the order of trigrams.
pub open spec fn trigrams_sorted(records: Seq<SpillRecord>) -> bool {
    forall|i: int, j: int|
        0 <= i < j < records.len() ==> (#[trigger] records[i]).trigram <= (
        #[trigger] records[j]).trigram
}

/// In such records the spans are in ascending order of their trigrams.
proof fn lemma_spans_ascend(records: Seq<SpillRecord>)
    requires
        trigrams_sorted(records),
    ensures
        forall|i: int, j: int|
            0 <= i < j < spans_of(records).len() ==> (#[trigger] spans_of(records)[i]).trigram < (
            #[trigger] spans_of(records)[j]).trigram,
    decreases records.len(),
{
    if records.len() > 0 {
        let prev = records.drop_last();
        assert(trigrams_sorted(prev)) by {
            assert forall|i: int, j: int| 0 <= i < j < prev.len() implies (
            #[trigger] prev[i]).trigram <= (#[trigger] prev[j]).trigram by {
                assert(prev[i] == records[i] && prev[j] == records[j]);
            }
        }
        lemma_spans_ascend(prev);
        lemma_spans_tile(prev);
        let earlier = spans_of(prev);
        let spans = spans_of(records);
        let trigram = records.last().trigram;
        assert forall|i: int, j: int| 0 <= i < j < spans.len() implies (
        #[trigger] spans[i]).trigram < (#[trigger] spans[j]).trigram by {
            assert(spans[i] == earlier[i]);
            if j < earlier.len() {
                assert(earlier[i].trigram < earlier[j].trigram);
            } else {
                assert(prev.len() > 0);
                assert(earlier.last().trigram == prev.last().trigram);
                assert(records[prev.len() - 1].trigram <= records[records.len() - 1].trigram);
                assert(earlier.last().trigram <= trigram);
                assert(earlier.last().trigram != trigram);
                assert(earlier[i].trigram <= earlier.last().trigram) by {
                    if i < earlier.len() - 1 {
                        assert(earlier[i].trigram < earlier[earlier.len() - 1].trigram);
                    }
                }
            }
        }
    }
}

/// The lookup table of records in the order of trigrams is in ascending order.
pub proof fn lemma_lookup_is_ascending(records: Seq<SpillRecord>)
    requires
        trigrams_sorted(records),
    ensures
        ascending_lookup(lookup_of(records)),
{
    lemma_spans_ascend(records);
    let lookup = lookup_of(records);
    assert forall|i: int, j: int| 0 <= i < j < lookup.len() implies (#[trigger] lookup[i]).trigram
        < (#[trigger] lookup[j]).trigram by {
        assert(spans_of(records)[i].trigram < spans_of(records)[j].trigram);
    }
}

pub proof fn lemma_record_bytes_are_lists(records: Seq<SpillRecord>)
    ensures
        record_bytes(records) == posting_list_bytes(record_postings(records)),
    decreases records.len(),
{
    let postings = record_postings(records);
    if records.len() == 0 {
        assert(postings =~= Seq::<Posting>::empty());
        assert(record_bytes(records) =~= posting_list_bytes(postings));
    } else {
        lemma_record_bytes_are_lists(records.skip(1));
        let first = seq![record_posting(records[0])];
        assert(postings =~= first + record_postings(records.skip(1)));
        lemma_posting_list_concat(first, record_postings(records.skip(1)));
        assert(first.drop_last() =~= Seq::<Posting>::empty());
        assert(posting_list_bytes(first.drop_last()) =~= Seq::<u8>::empty());
        assert(first.last() == record_posting(records[0]));
        assert(posting_list_bytes(first) =~= posting_bytes(record_posting(records[0])));
    }
}

/// A piece of the blob holds the postings of the records whose place it takes.
pub proof fn lemma_blob_piece(records: Seq<SpillRecord>, from: int, to: int)
    requires
        0 <= from <= to <= records.len(),
    ensures
        record_bytes(records).len() == 6 * records.len(),
        postings_of(record_bytes(records).subrange(6 * from, 6 * to)) == record_postings(
            records.subrange(from, to),
        ),
{
    let postings = record_postings(records);
    let front = postings.take(from);
    let middle = postings.subrange(from, to);
    let back = postings.skip(to);
    lemma_record_bytes_are_lists(records);
    lemma_posting_list_len(postings);
    lemma_posting_list_len(front);
    lemma_posting_list_len(middle);
    lemma_posting_list_concat(front, middle);
    lemma_posting_list_concat(front + middle, back);
    assert(front + middle + back =~= postings);
    assert(record_bytes(records).subrange(6 * from, 6 * to) =~= posting_list_bytes(middle));
    lemma_postings_survive_disk(middle);
    assert(record_postings(records.subrange(from, to)) =~= middle);
}

/// The lookup entry of a trigram leads to the postings of all records with that trigram, and of no
/// others.
pub proof fn lemma_lookup_leads_to_lists(records: Seq<SpillRecord>, trigram: u32)
    requires
        trigrams_sorted(records),
        lookup_fits(records),
    ensures
        match entry_for(lookup_of(records), trigram) {
            Some(entry) => {
                let first = entry.offset as int / 6;
                &&& entry.trigram == trigram
                &&& entry.offset == 6 * first
                &&& first + entry.count <= records.len()
                &&& entry.offset + 6 * entry.count <= record_bytes(records).len()
                &&& postings_of(
                    record_bytes(records).subrange(
                        entry.offset as int,
                        entry.offset + 6 * entry.count,
                    ),
                ) == record_postings(records.subrange(first, first + entry.count))
                &&& forall|k: int|
                    0 <= k < records.len() ==> ((#[trigger] records[k]).trigram == trigram <==> first
                        <= k < first + entry.count)
            },
            None => forall|k: int|
                0 <= k < records.len() ==> (#[trigger] records[k]).trigram != trigram,
        },
{
    let lookup = lookup_of(records);
    let spans = spans_of(records);
    lemma_spans_tile(records);
    lemma_spans_ascend(records);
    if lookup_holds(lookup, trigram) {
        let i = choose|i: int| 0 <= i < lookup.len() && (#[trigger] lookup[i]).trigram == trigram;
        let span = spans[i];
        let entry = lookup[i];
        assert(entry == span_entry(span));
        assert(6 * span.first <= 6 * records.len());
        assert(span.count <= u32::MAX);
        let first = entry.offset as int / 6;
        assert(first == span.first);
        lemma_blob_piece(records, first, first + entry.count);
        assert forall|k: int| 0 <= k < records.len() implies ((
        #[trigger] records[k]).trigram == trigram <==> first <= k < first + entry.count) by {
            assert(covered(spans, records, k));
            let j = choose|j: int|
                0 <= j < spans.len() && (#[trigger] spans[j]).first <= k < spans[j].first
                    + spans[j].count && records[k].trigram == spans[j].trigram;
            if j != i {
                if j < i {
                    assert(spans[j].trigram < spans[i].trigram);
                    assert(spans[j].first + spans[j].count <= spans[i].first);
                } else {
                    assert(spans[i].trigram < spans[j].trigram);
                    assert(spans[i].first + spans[i].count <= spans[j].first);
                }
            }
        }
    } else {
        assert forall|k: int| 0 <= k < records.len() implies (#[trigger] records[k]).trigram
            != trigram by {
            assert(covered(spans, records, k));
            let j = choose|j: int|
                0 <= j < spans.len() && (#[trigger] spans[j]).first <= k < spans[j].first
                    + spans[j].count && records[k].trigram == spans[j].trigram;
            assert(lookup[j].trigram == spans[j].trigram);
        }
    }
}

/// The lookup table has one entry for each trigram that has a record.
pub proof fn lemma_lookup_counts_trigrams(records: Seq<SpillRecord>, trigrams: Set<u32>)
    requires
        trigrams_sorted(records),
        lookup_fits(records),
        forall|k: int| 0 <= k < records.len() ==> trigrams.contains((#[trigger] records[k]).trigram),
        forall|t: u32| #[trigger]
            trigrams.contains(t) ==> exists|k: int|
                0 <= k < records.len() && (#[trigger] records[k]).trigram == t,
    ensures
        lookup_of(records).len() == trigrams.len(),
{
    let lookup = lookup_of(records);
    let keys = Seq::new(lookup.len(), |i: int| lookup[i].trigram);
    lemma_lookup_is_ascending(records);
    assert(keys.no_duplicates()) by {
        assert forall|i: int, j: int| 0 <= i < j < keys.len() implies keys[i] != keys[j] by {
            assert(lookup[i].trigram < lookup[j].trigram);
        }
    }
    keys.unique_seq_to_set();
    assert(keys.to_set() =~= trigrams) by {
        assert forall|t: u32| keys.to_set().contains(t) == trigrams.contains(t) by {
            lemma_lookup_leads_to_lists(records, t);
            if keys.contains(t) {
                let i = keys.index_of(t);
                lemma_spans_tile(records);
                let span = spans_of(records)[i];
                assert(lookup[i].trigram == t);
                assert(records[span.first].trigram == span.trigram);
            }
            if trigrams.contains(t) {
                let k = choose|k: int| 0 <= k < records.len() && (#[trigger] records[k]).trigram == t;
                assert(lookup_holds(lookup, t));
                let i = choose|i: int| 0 <= i < lookup.len() && (#[trigger] lookup[i]).trigram == t;
                assert(keys[i] == t);
            }
        }
    }
}

} // verus!
