//! Merging segments that are read piece by piece.

use crate::codec::lemma_le_bytes_len;
use crate::codec::u64_at;
use crate::merge::find_least;
use crate::merge::least_source;
use crate::merge::lemma_least_source;
use crate::merge::lemma_prefix_fits;
use crate::merge::lemma_record_bytes_push;
use crate::merge::lemma_total_of_update;
use crate::merge::lookup_fits;
use crate::merge::merge_error;
use crate::merge::merge_steps;
use crate::merge::merged;
use crate::merge::total_records;
use crate::merge::LookupBuilder;
use crate::postings::posting_bytes;
use crate::postings::push_posting;
use crate::records::is_source_error;
use crate::records::open_error;
use crate::records::record_bytes;
use crate::records::record_posting;
use crate::records::RecordError;
use crate::records::SpillRecord;
use crate::segment_window::lemma_segment_len;
use crate::segment_window::whole_segment;
use crate::segment_window::Fetched;
use crate::segment_window::SegmentWindow;
use vstd::prelude::*;

verus! {

/// A merge under way. Of each segment only a window is held, and of the merged posting lists only what
/// was not handed out yet.
pub struct StreamMerge {
    pub windows: Vec<SegmentWindow>,
    /// The record taken out of each window.
    pub heads: Vec<Option<SpillRecord>>,
    pub lookup: LookupBuilder,
    /// How many records the segments say that they have.
    pub announced: u64,
    pub chunk: Vec<u8>,
    /// The records merged so far.
    pub out: Ghost<Seq<SpillRecord>>,
    /// The posting lists handed out so far.
    pub written: Ghost<Seq<u8>>,
}

/// What a merge asks for next.
pub enum MergeStep {
    /// More bytes of a segment, or word that it has ended.
    Need(usize),
    /// Posting lists that come next.
    Write(Vec<u8>),
    Done,
    Failed(RecordError),
}

/// The records of segments.
pub open spec fn whole_streams(segments: Seq<Seq<u8>>) -> Seq<Seq<SpillRecord>> {
    segments.map_values(|bytes: Seq<u8>| whole_segment(bytes).0)
}

/// Every segment can be read to its end.
pub open spec fn all_whole(segments: Seq<Seq<u8>>) -> bool {
    forall|i: int| 0 <= i < segments.len() ==> whole_segment(#[trigger] segments[i]).1
}

/// The segments with more bytes behind each.
pub open spec fn longer(segments: Seq<Seq<u8>>, more: Seq<Seq<u8>>) -> Seq<Seq<u8>> {
    Seq::new(segments.len(), |i: int| segments[i] + more[i])
}

/// How many records the first `count` segments say that they have.
pub open spec fn announced_records(segments: Seq<Seq<u8>>, count: int) -> int
    decreases count,
{
    if count <= 0 {
        0
    } else {
        announced_records(segments, count - 1) + u64_at(segments[count - 1], 12)
    }
}

proof fn lemma_same_announcements(left: Seq<Seq<u8>>, right: Seq<Seq<u8>>, count: int)
    requires
        count <= left.len(),
        left.len() == right.len(),
        forall|i: int|
            0 <= i < left.len() ==> u64_at(#[trigger] left[i], 12) == u64_at(right[i], 12),
    ensures
        announced_records(left, count) == announced_records(right, count),
    decreases count,
{
    if count > 0 {
        lemma_same_announcements(left, right, count - 1);
        assert(u64_at(left[count - 1], 12) == u64_at(right[count - 1], 12));
    }
}

/// Segments that can be read to their ends have as many records as they say, and so does what they
/// merge into.
pub proof fn lemma_announcements_are_kept(segments: Seq<Seq<u8>>)
    requires
        all_whole(segments),
    ensures
        merged(whole_streams(segments)).len() == announced_records(
            segments,
            segments.len() as int,
        ),
{
    let streams = whole_streams(segments);
    lemma_announced_total(segments, segments.len());
    lemma_merge_steps_len(streams, total_records(streams, streams.len()));
}

proof fn lemma_announced_total(segments: Seq<Seq<u8>>, count: nat)
    requires
        all_whole(segments),
        count <= segments.len(),
    ensures
        total_records(whole_streams(segments), count) == announced_records(segments, count as int),
    decreases count,
{
    if count > 0 {
        lemma_announced_total(segments, (count - 1) as nat);
        let bytes = segments[count - 1];
        assert(whole_segment(bytes).1);
        lemma_segment_len(bytes, 20, u64_at(bytes, 12) as nat, 0, 0);
        assert(whole_streams(segments)[count - 1] == whole_segment(bytes).0);
    }
}

/// Segments have no more records than they say.
proof fn lemma_announced_bound(segments: Seq<Seq<u8>>, count: nat)
    requires
        count <= segments.len(),
    ensures
        total_records(whole_streams(segments), count) <= announced_records(segments, count as int),
    decreases count,
{
    if count > 0 {
        lemma_announced_bound(segments, (count - 1) as nat);
        let bytes = segments[count - 1];
        lemma_segment_len(bytes, 20, u64_at(bytes, 12) as nat, 0, 0);
        assert(whole_streams(segments)[count - 1] == whole_segment(bytes).0);
    }
}

proof fn lemma_record_bytes_len(records: Seq<SpillRecord>)
    ensures
        record_bytes(records).len() == 6 * records.len(),
    decreases records.len(),
{
    if records.len() > 0 {
        let earlier = records.drop_last();
        lemma_record_bytes_len(earlier);
        lemma_record_bytes_push(earlier, records.last());
        lemma_le_bytes_len(records.last().file_id as int, 4);
        assert(earlier.push(records.last()) =~= records);
    }
}

proof fn lemma_merge_steps_len(streams: Seq<Seq<SpillRecord>>, steps: nat)
    requires
        steps == total_records(streams, streams.len()),
    ensures
        merge_steps(streams, steps).len() == steps,
    decreases steps,
{
    lemma_least_source(streams, streams.len());
    if steps > 0 {
        let s = least_source(streams, streams.len())->0;
        let rest = streams.update(s, streams[s].skip(1));
        lemma_total_of_update(streams, s, streams[s].skip(1), streams.len());
        lemma_merge_steps_len(rest, (steps - 1) as nat);
    }
}

/// What is wrong with the first of the segments from `i` on that does not begin as one.
pub open spec fn front_error(fronts: Seq<Seq<u8>>, i: int) -> Option<RecordError>
    decreases fronts.len() - i,
{
    if i >= fronts.len() {
        None
    } else {
        match open_error(fronts[i]) {
            Some(error) => Some(error),
            None => front_error(fronts, i + 1),
        }
    }
}

pub open spec fn byte_views(pieces: Seq<Vec<u8>>) -> Seq<Seq<u8>> {
    pieces.map_values(|piece: Vec<u8>| piece@)
}

/// Nothing more of any segment.
pub open spec fn nothing_more(count: nat) -> Seq<Seq<u8>> {
    Seq::new(count, |i: int| Seq::<u8>::empty())
}

/// The least source is told by the first records alone.
proof fn lemma_heads_tell_least(
    left: Seq<Seq<SpillRecord>>,
    right: Seq<Seq<SpillRecord>>,
    count: nat,
)
    requires
        count <= left.len(),
        left.len() == right.len(),
        forall|i: int|
            0 <= i < left.len() ==> ((#[trigger] left[i]).len() > 0 <==> right[i].len() > 0) && (
            left[i].len() > 0 ==> left[i][0] == right[i][0]),
    ensures
        least_source(left, count) == least_source(right, count),
    decreases count,
{
    if count > 0 {
        lemma_heads_tell_least(left, right, (count - 1) as nat);
        lemma_least_source(left, (count - 1) as nat);
        assert(left[count - 1].len() > 0 <==> right[count - 1].len() > 0);
        if let Some(best) = least_source(left, (count - 1) as nat) {
            assert(left[best].len() > 0 <==> right[best].len() > 0);
        }
    }
}

/// Merging takes the least record first.
proof fn lemma_merged_step(streams: Seq<Seq<SpillRecord>>, s: int)
    requires
        least_source(streams, streams.len()) == Some(s),
    ensures
        0 <= s < streams.len(),
        streams[s].len() > 0,
        merged(streams) == seq![streams[s][0]] + merged(
            streams.update(s, streams[s].skip(1)),
        ),
{
    lemma_least_source(streams, streams.len());
    lemma_total_of_update(streams, s, streams[s].skip(1), streams.len());
    lemma_total_of_update(streams, s, Seq::empty(), streams.len());
}

proof fn lemma_merged_none(streams: Seq<Seq<SpillRecord>>)
    requires
        least_source(streams, streams.len()) is None,
    ensures
        merged(streams) == Seq::<SpillRecord>::empty(),
        forall|i: int| 0 <= i < streams.len() ==> (#[trigger] streams[i]).len() == 0,
{
    lemma_least_source(streams, streams.len());
}

impl StreamMerge {
    /// The bytes of each segment that were given so far.
    pub open spec fn given(&self) -> Seq<Seq<u8>> {
        self.windows@.map_values(|window: SegmentWindow| window.given@)
    }

    /// `more` may still be given.
    pub open spec fn allowed(&self, more: Seq<Seq<u8>>) -> bool {
        &&& more.len() == self.windows@.len()
        &&& forall|i: int|
            0 <= i < more.len() && (#[trigger] self.windows@[i]).ended ==> more[i].len() == 0
    }

    /// Some segment cannot be read to its end, whatever may still be given.
    pub open spec fn is_broken(&self) -> bool {
        forall|more: Seq<Seq<u8>>| #[trigger]
            self.allowed(more) ==> !all_whole(longer(self.given(), more))
    }

    /// The segments cannot be merged, for the reason `error`, whatever may still be given.
    pub open spec fn must_fail(&self, error: RecordError) -> bool {
        forall|more: Seq<Seq<u8>>| #[trigger]
            self.allowed(more) ==> {
                let segments = longer(self.given(), more);
                let records = merged(whole_streams(segments));
                &&& !all_whole(segments) || !lookup_fits(records)
                &&& merge_error(records, all_whole(segments), error)
            }
    }

    /// The segments can be read to their ends and merge into `records`, whatever may still be given.
    pub open spec fn must_give(&self, records: Seq<SpillRecord>) -> bool {
        forall|more: Seq<Seq<u8>>| #[trigger]
            self.allowed(more) ==> {
                let segments = longer(self.given(), more);
                &&& all_whole(segments)
                &&& merged(whole_streams(segments)) == records
            }
    }

    /// The records that are left, if `more` is still given.
    pub open spec fn left(&self, more: Seq<Seq<u8>>) -> Seq<Seq<SpillRecord>> {
        Seq::new(
            self.windows@.len(),
            |i: int|
                match self.heads@[i] {
                    Some(record) => seq![record] + self.windows@[i].rest(more[i]).0,
                    None => self.windows@[i].rest(more[i]).0,
                },
        )
    }

    /// What was merged and what is left make up the whole, if `more` is still given.
    pub open spec fn tells(&self, more: Seq<Seq<u8>>) -> bool {
        let segments = longer(self.given(), more);
        &&& merged(whole_streams(segments)) == self.out@ + merged(self.left(more))
        &&& forall|i: int|
            0 <= i < self.windows@.len() ==> (#[trigger] self.windows@[i]).rest(more[i]).1
                == whole_segment(segments[i]).1
    }

    pub open spec fn well_formed(&self) -> bool {
        &&& self.heads@.len() == self.windows@.len()
        &&& forall|i: int|
            0 <= i < self.windows@.len() ==> (#[trigger] self.windows@[i]).well_formed()
        &&& self.lookup.stands_for(self.out@)
        &&& self.written@ + self.chunk@ == record_bytes(self.out@)
        &&& forall|i: int| 0 <= i < self.given().len() ==> (#[trigger] self.given()[i]).len() >= 20
        &&& self.announced == announced_records(self.given(), self.windows@.len() as int)
        &&& 6 * self.announced <= u64::MAX
        &&& forall|more: Seq<Seq<u8>>| #[trigger] self.allowed(more) ==> self.tells(more)
    }

    /// Nothing is known to be left of the window, or its next record is known.
    spec fn loaded(&self, i: int) -> bool {
        self.heads@[i] is Some || forall|more: Seq<u8>| #[trigger]
            self.windows@[i].rest(more) == (Seq::<SpillRecord>::empty(), true)
    }

    /// Starts merging segments with their first bytes.
    pub fn open(fronts: Vec<Vec<u8>>) -> (merge: Result<StreamMerge, RecordError>)
        ensures
            match merge {
                Ok(merge) => {
                    &&& merge.well_formed()
                    &&& front_error(byte_views(fronts@), 0) is None
                    &&& merge.given() == byte_views(fronts@)
                    &&& forall|i: int|
                        0 <= i < merge.windows@.len() ==> !(#[trigger] merge.windows@[i]).ended
                    &&& merge.written@.len() == 0
                },
                Err(RecordError::PostingsBlobTooLarge) => exists|count: int|
                    0 <= count <= fronts@.len() && 6 * #[trigger] announced_records(
                        byte_views(fronts@),
                        count,
                    ) > u64::MAX,
                Err(error) => front_error(byte_views(fronts@), 0) == Some(error),
            },
    {
        let ghost views = byte_views(fronts@);
        let mut reversed: Vec<Vec<u8>> = Vec::new();
        let mut rest: Vec<Vec<u8>> = fronts;
        while rest.len() > 0
            invariant
                rest@ == fronts@.take(rest@.len() as int),
                rest@.len() <= fronts@.len(),
                reversed@.len() == fronts@.len() - rest@.len(),
                forall|k: int|
                    0 <= k < reversed@.len() ==> #[trigger] reversed@[k] == fronts@[fronts@.len()
                        - 1 - k],
            decreases rest@.len(),
        {
            let ghost before = rest@;
            if let Some(front) = rest.pop() {
                assert(front == fronts@[before.len() - 1]);
                reversed.push(front);
                assert(rest@ =~= fronts@.take(rest@.len() as int));
            }
        }
        let mut windows: Vec<SegmentWindow> = Vec::new();
        let mut heads: Vec<Option<SpillRecord>> = Vec::new();
        let mut announced: u64 = 0;
        while reversed.len() > 0
            invariant
                views == byte_views(fronts@),
                reversed@.len() <= fronts@.len(),
                windows@.len() == fronts@.len() - reversed@.len(),
                heads@.len() == windows@.len(),
                forall|k: int| 0 <= k < heads@.len() ==> (#[trigger] heads@[k]) is None,
                forall|k: int|
                    0 <= k < reversed@.len() ==> #[trigger] reversed@[k] == fronts@[fronts@.len()
                        - 1 - k],
                forall|k: int|
                    0 <= k < windows@.len() ==> {
                        let window = #[trigger] windows@[k];
                        &&& window.well_formed()
                        &&& !window.ended
                        &&& window.given@ == views[k]
                        &&& views[k].len() >= 20
                        &&& forall|more: Seq<u8>| #[trigger]
                            window.rest(more) == whole_segment(views[k] + more)
                    },
                announced == announced_records(views, windows@.len() as int),
                6 * announced <= u64::MAX,
                front_error(views, 0) == front_error(views, windows@.len() as int),
            decreases reversed@.len(),
        {
            if let Some(front) = reversed.pop() {
                let ghost k = windows@.len() as int;
                assert(views[k] == front@);
                match SegmentWindow::open(front) {
                    Ok(window) => {
                        let count: u64 = window.remaining_records;
                        assert(announced_records(views, k + 1) == announced + count);
                        if count > (u64::MAX / 6) - announced {
                            return Err(RecordError::PostingsBlobTooLarge);
                        }
                        announced = announced + count;
                        let ghost before = windows@;
                        let ghost added = window;
                        windows.push(window);
                        heads.push(None);
                        proof {
                            assert(views[k].len() >= 20);
                            assert forall|m: int| 0 <= m < windows@.len() implies {
                                let window = #[trigger] windows@[m];
                                &&& window.well_formed()
                                &&& !window.ended
                                &&& window.given@ == views[m]
                                &&& views[m].len() >= 20
                                &&& forall|more: Seq<u8>| #[trigger]
                                    window.rest(more) == whole_segment(views[m] + more)
                            } by {
                                if m < k {
                                    assert(windows@[m] == before[m]);
                                } else {
                                    assert(windows@[m] == added);
                                }
                            }
                        }
                    },
                    Err(error) => {
                        return Err(error);
                    },
                }
            }
        }
        let lookup = LookupBuilder::new();
        let merge = StreamMerge {
            windows,
            heads,
            lookup,
            announced,
            chunk: Vec::new(),
            out: Ghost(Seq::empty()),
            written: Ghost(Seq::empty()),
        };
        proof {
            assert(merge.given() =~= views);
            assert forall|i: int| 0 <= i < views.len() implies (#[trigger] views[i]).len()
                >= 20 by {
                assert(merge.windows@[i].given@ == views[i]);
            }
            assert forall|more: Seq<Seq<u8>>| #[trigger] merge.allowed(more) implies merge.tells(
                more,
            ) by {
                let segments = longer(merge.given(), more);
                assert forall|i: int| 0 <= i < segments.len() implies #[trigger] merge.windows@[i].rest(
                    more[i],
                ) == whole_segment(segments[i]) by {
                    assert(segments[i] == views[i] + more[i]);
                }
                assert(merge.left(more) =~= whole_streams(segments)) by {
                    assert forall|i: int| 0 <= i < segments.len() implies merge.left(more)[i]
                        == whole_streams(segments)[i] by {
                        assert(merge.heads@[i] is None);
                        assert(merge.windows@[i].rest(more[i]) == whole_segment(segments[i]));
                    }
                }
                assert(merge.out@ + merged(merge.left(more)) =~= merged(merge.left(more)));
            }
            assert(merge.written@ + merge.chunk@ =~= record_bytes(merge.out@));
        }
        Ok(merge)
    }

    /// Gives the bytes of a segment that come next.
    pub fn feed(&mut self, segment: usize, bytes: &[u8])
        requires
            old(self).well_formed(),
            segment < old(self).windows@.len(),
            !old(self).windows@[segment as int].ended,
        ensures
            final(self).well_formed(),
            final(self).given() == old(self).given().update(
                segment as int,
                old(self).given()[segment as int] + bytes@,
            ),
            final(self).windows@.len() == old(self).windows@.len(),
            forall|i: int|
                0 <= i < final(self).windows@.len() ==> (#[trigger] final(self).windows@[i]).ended
                    == old(self).windows@[i].ended,
            final(self).written == old(self).written,
            final(self).announced == old(self).announced,
    {
        let ghost start = *self;
        let window = &mut self.windows[segment];
        window.feed(bytes);
        proof {
            let at = segment as int;
            assert(self.windows@ =~= start.windows@.update(at, self.windows@[at]));
            assert(self.given() =~= start.given().update(at, start.given()[at] + bytes@));
            assert(start.given()[at].len() >= 20);
            assert forall|i: int| 0 <= i < start.given().len() implies u64_at(
                #[trigger] start.given()[i],
                12,
            ) == u64_at(self.given()[i], 12) && self.given()[i].len() >= 20 by {
                if i == at {
                    assert((start.given()[at] + bytes@).subrange(12, 20)
                        =~= start.given()[at].subrange(12, 20));
                }
            }
            lemma_same_announcements(
                start.given(),
                self.given(),
                start.windows@.len() as int,
            );
            assert forall|more: Seq<Seq<u8>>| #[trigger] self.allowed(more) implies self.tells(
                more,
            ) by {
                let earlier = more.update(at, bytes@ + more[at]);
                assert(start.allowed(earlier)) by {
                    assert forall|i: int|
                        0 <= i < earlier.len() && (#[trigger] start.windows@[i]).ended implies earlier[i].len()
                        == 0 by {
                        assert(self.windows@[i].ended);
                    }
                }
                assert(start.tells(earlier));
                assert(longer(self.given(), more) =~= longer(start.given(), earlier)) by {
                    assert((start.given()[at] + bytes@) + more[at] =~= start.given()[at] + (bytes@
                        + more[at]));
                }
                assert forall|i: int| 0 <= i < more.len() implies #[trigger] self.windows@[i].rest(
                    more[i],
                ) == start.windows@[i].rest(earlier[i]) by {}
                assert(self.left(more) =~= start.left(earlier)) by {
                    assert forall|i: int| 0 <= i < more.len() implies self.left(more)[i]
                        == start.left(earlier)[i] by {
                        assert(self.windows@[i].rest(more[i]) == start.windows@[i].rest(
                            earlier[i],
                        ));
                    }
                }
            }
        }
    }

    /// Says that a segment has no more bytes.
    pub fn end(&mut self, segment: usize)
        requires
            old(self).well_formed(),
            segment < old(self).windows@.len(),
        ensures
            final(self).well_formed(),
            final(self).given() == old(self).given(),
            final(self).windows@.len() == old(self).windows@.len(),
            forall|i: int|
                0 <= i < final(self).windows@.len() ==> (#[trigger] final(self).windows@[i]).ended
                    == (i == segment || old(self).windows@[i].ended),
            final(self).written == old(self).written,
            final(self).announced == old(self).announced,
    {
        let ghost start = *self;
        let window = &mut self.windows[segment];
        window.end();
        proof {
            let at = segment as int;
            assert(self.windows@ =~= start.windows@.update(at, self.windows@[at]));
            assert(self.given() =~= start.given());
            assert forall|more: Seq<Seq<u8>>| #[trigger] self.allowed(more) implies self.tells(
                more,
            ) by {
                assert(start.allowed(more)) by {
                    assert forall|i: int|
                        0 <= i < more.len() && (#[trigger] start.windows@[i]).ended implies more[i].len()
                        == 0 by {
                        assert(self.windows@[i].ended);
                    }
                }
                assert(start.tells(more));
                assert forall|i: int| 0 <= i < more.len() implies #[trigger] self.windows@[i].rest(
                    more[i],
                ) == start.windows@[i].rest(more[i]) by {}
                assert(self.left(more) =~= start.left(more)) by {
                    assert forall|i: int| 0 <= i < more.len() implies self.left(more)[i]
                        == start.left(more)[i] by {
                        assert(self.windows@[i].rest(more[i]) == start.windows@[i].rest(more[i]));
                    }
                }
            }
        }
    }

    /// A merge with the same windows and records is in the same state.
    proof fn lemma_same_state(&self, other: StreamMerge)
        requires
            other.well_formed(),
            self.windows@ == other.windows@,
            self.heads@ == other.heads@,
            self.lookup == other.lookup,
            self.chunk == other.chunk,
            self.out == other.out,
            self.written == other.written,
            self.announced == other.announced,
        ensures
            self.well_formed(),
    {
        assert(self.given() =~= other.given());
        assert forall|more: Seq<Seq<u8>>| #[trigger] self.allowed(more) implies self.tells(
            more,
        ) by {
            assert(other.allowed(more));
            assert(other.tells(more));
            assert(self.left(more) =~= other.left(more));
        }
    }

    /// The next record of a window whose record was taken. Says what stands in the way of telling it.
    fn fetch(&mut self, i: usize) -> (hindrance: Option<MergeStep>)
        requires
            old(self).well_formed(),
            i < old(self).windows@.len(),
            old(self).heads@[i as int] is None,
        ensures
            final(self).well_formed(),
            final(self).given() == old(self).given(),
            final(self).windows@ == old(self).windows@.update(
                i as int,
                final(self).windows@[i as int],
            ),
            final(self).windows@[i as int].ended == old(self).windows@[i as int].ended,
            final(self).heads@ == old(self).heads@.update(i as int, final(self).heads@[i as int]),
            final(self).out == old(self).out,
            final(self).written == old(self).written,
            final(self).chunk == old(self).chunk,
            final(self).announced == old(self).announced,
            match hindrance {
                None => final(self).loaded(i as int),
                Some(MergeStep::Need(segment)) => {
                    &&& segment == i
                    &&& final(self).heads@[i as int] is None
                    &&& final(self).windows@[i as int].hungry()
                },
                Some(MergeStep::Failed(error)) => is_source_error(error) && old(self).is_broken(),
                _ => false,
            },
    {
        let ghost start = *self;
        let ghost at = i as int;
        let window = &mut self.windows[i];
        let fetched = window.next();
        assert(self.windows@ =~= start.windows@.update(at, self.windows@[at]));
        assert(self.given() =~= start.given());
        match fetched {
            Fetched::Record(record) => {
                self.heads.set(i, Some(record));
                proof {
                    assert forall|more: Seq<Seq<u8>>| #[trigger]
                        self.allowed(more) implies self.tells(more) by {
                        assert(start.allowed(more)) by {
                            assert forall|k: int|
                                0 <= k < more.len() && (
                                #[trigger] start.windows@[k]).ended implies more[k].len() == 0 by {
                                assert(self.windows@[k].ended);
                            }
                        }
                        assert(start.tells(more));
                        assert(start.windows@[at].rest(more[at]) == (
                            seq![record] + self.windows@[at].rest(more[at]).0,
                            self.windows@[at].rest(more[at]).1,
                        ));
                        assert(self.left(more) =~= start.left(more));
                    }
                }
                None
            },
            Fetched::Hungry => {
                proof {
                    assert(self.windows@ =~= start.windows@);
                    self.lemma_same_state(start);
                }
                Some(MergeStep::Need(i))
            },
            Fetched::Over => {
                proof {
                    assert(self.windows@ =~= start.windows@);
                    self.lemma_same_state(start);
                    assert(self.windows@[at] == start.windows@[at]);
                }
                None
            },
            Fetched::Broken(error) => {
                proof {
                    assert(self.windows@ =~= start.windows@);
                    self.lemma_same_state(start);
                    assert forall|more: Seq<Seq<u8>>| #[trigger]
                        start.allowed(more) implies !all_whole(longer(start.given(), more)) by {
                        assert(start.tells(more));
                        assert(start.windows@[at].ended ==> more[at].len() == 0);
                        assert(start.windows@[at].rest(more[at]) == (
                            Seq::<SpillRecord>::empty(),
                            false,
                        ));
                        assert(!whole_segment(longer(start.given(), more)[at]).1);
                    }
                }
                Some(MergeStep::Failed(error))
            },
        }
    }

    /// With nothing more to come the segments are those that were given.
    proof fn lemma_given_is_whole(&self)
        requires
            self.well_formed(),
        ensures
            self.allowed(nothing_more(self.windows@.len())),
            self.tells(nothing_more(self.windows@.len())),
            longer(self.given(), nothing_more(self.windows@.len())) == self.given(),
    {
        let more = nothing_more(self.windows@.len());
        assert(self.allowed(more));
        assert(longer(self.given(), more) =~= self.given()) by {
            assert forall|k: int| 0 <= k < self.windows@.len() implies longer(
                self.given(),
                more,
            )[k] == self.given()[k] by {
                assert(self.given()[k] + more[k] =~= self.given()[k]);
            }
        }
    }

    /// The least of the known records is merged next, whatever may still be given.
    proof fn lemma_least_is_merged_next(
        &self,
        streams: Seq<Seq<SpillRecord>>,
        s: int,
        record: SpillRecord,
        more: Seq<Seq<u8>>,
    )
        requires
            self.well_formed(),
            forall|i: int| 0 <= i < self.windows@.len() ==> #[trigger] self.loaded(i),
            streams == self.left(nothing_more(self.windows@.len())),
            least_source(streams, streams.len()) == Some(s),
            self.heads@[s] == Some(record),
            self.allowed(more),
        ensures
            ({
                let left = self.left(more);
                &&& 0 <= s < left.len()
                &&& merged(whole_streams(longer(self.given(), more))) == self.out@.push(record)
                    + merged(left.update(s, left[s].skip(1)))
            }),
    {
        let left = self.left(more);
        assert(self.tells(more));
        assert forall|i: int| 0 <= i < left.len() implies ((#[trigger] left[i]).len() > 0
            <==> streams[i].len() > 0) && (left[i].len() > 0 ==> left[i][0] == streams[i][0]) by {
            assert(self.loaded(i));
        }
        lemma_heads_tell_least(left, streams, left.len());
        lemma_merged_step(left, s);
        assert(self.out@ + (seq![record] + merged(left.update(s, left[s].skip(1))))
            =~= self.out@.push(record) + merged(left.update(s, left[s].skip(1))));
    }

    /// Merges the record that comes first. Every window's next record is known.
    fn take_least(&mut self) -> (taken: Result<Option<usize>, RecordError>)
        requires
            old(self).well_formed(),
            forall|i: int| 0 <= i < old(self).windows@.len() ==> #[trigger] old(self).loaded(i),
        ensures
            final(self).given() == old(self).given(),
            final(self).windows == old(self).windows,
            final(self).written == old(self).written,
            final(self).announced == old(self).announced,
            match taken {
                Ok(Some(s)) => {
                    &&& final(self).well_formed()
                    &&& s < final(self).windows@.len()
                    &&& final(self).heads@ == old(self).heads@.update(s as int, None)
                    &&& final(self).chunk@.len() == old(self).chunk@.len() + 6
                },
                Ok(None) => {
                    &&& *final(self) == *old(self)
                    &&& old(self).must_give(old(self).out@)
                },
                Err(error) => old(self).must_fail(error),
            },
    {
        let ghost start = *self;
        let ghost none = nothing_more(start.windows@.len());
        let ghost streams = start.left(none);
        proof {
            start.lemma_given_is_whole();
            assert forall|i: int| 0 <= i < start.heads@.len() implies match #[trigger] start.heads@[i] {
                Some(record) => streams[i].len() > 0 && streams[i][0] == record,
                None => streams[i].len() == 0,
            } by {
                assert(start.loaded(i));
            }
        }
        match find_least(&self.heads, Ghost(streams)) {
            None => {
                proof {
                    lemma_merged_none(streams);
                    assert forall|more: Seq<Seq<u8>>| #[trigger] start.allowed(more) implies {
                        let segments = longer(start.given(), more);
                        &&& all_whole(segments)
                        &&& merged(whole_streams(segments)) == start.out@
                    } by {
                        let segments = longer(start.given(), more);
                        assert(start.tells(more));
                        assert forall|i: int| 0 <= i < segments.len() implies whole_segment(
                            #[trigger] segments[i],
                        ).1 && start.left(more)[i].len() == 0 by {
                            assert(streams[i].len() == 0);
                            assert(start.loaded(i));
                            assert(start.windows@[i].rest(more[i]) == (
                                Seq::<SpillRecord>::empty(),
                                true,
                            ));
                        }
                        assert(start.left(more) =~= streams) by {
                            assert forall|i: int| 0 <= i < streams.len() implies start.left(
                                more,
                            )[i] == streams[i] by {
                                assert(whole_segment(segments[i]).1);
                                assert(start.left(more)[i] =~= streams[i]);
                            }
                        }
                        assert(start.out@ + merged(streams) =~= start.out@);
                    }
                }
                Ok(None)
            },
            Some(s) => {
                let ghost si = s as int;
                let record: SpillRecord = match self.heads[s] {
                    Some(record) => record,
                    None => {
                        return Ok(None);
                    },
                };
                match self.lookup.push(record, Ghost(start.out@)) {
                    Ok(()) => {},
                    Err(error) => {
                        proof {
                            assert forall|more: Seq<Seq<u8>>| #[trigger] start.allowed(more) implies {
                                let segments = longer(start.given(), more);
                                let records = merged(whole_streams(segments));
                                &&& !lookup_fits(records)
                                &&& merge_error(records, all_whole(segments), error)
                            } by {
                                let all = merged(whole_streams(longer(start.given(), more)));
                                start.lemma_least_is_merged_next(streams, si, record, more);
                                assert(all.take(start.out@.len() as int + 1) =~= start.out@.push(
                                    record,
                                ));
                                if lookup_fits(all) {
                                    lemma_prefix_fits(start.out@.push(record), all);
                                }
                            }
                        }
                        return Err(error);
                    },
                }
                push_posting(&mut self.chunk, record.posting());
                self.out = Ghost(start.out@.push(record));
                self.heads.set(s, None);
                proof {
                    lemma_record_bytes_push(start.out@, record);
                    lemma_le_bytes_len(record.file_id as int, 4);
                    assert(start.written@ + (start.chunk@ + posting_bytes(record_posting(record)))
                        =~= (start.written@ + start.chunk@) + posting_bytes(
                        record_posting(record),
                    ));
                    assert forall|more: Seq<Seq<u8>>| #[trigger]
                        self.allowed(more) implies self.tells(more) by {
                        let left = start.left(more);
                        assert(start.allowed(more));
                        start.lemma_least_is_merged_next(streams, si, record, more);
                        assert(left[si].skip(1) =~= start.windows@[si].rest(more[si]).0);
                        assert(self.left(more) =~= left.update(si, left[si].skip(1)));
                    }
                }
                Ok(Some(s))
            },
        }
    }

    /// What was handed out is no longer than the segments announced.
    pub(crate) proof fn lemma_written_fits(&self)
        requires
            self.well_formed(),
        ensures
            self.written@.len() <= 6 * self.announced,
    {
        lemma_record_bytes_len(self.out@);
        self.lemma_given_is_whole();
        lemma_announced_bound(self.given(), self.given().len());
        let streams = whole_streams(self.given());
        lemma_merge_steps_len(streams, total_records(streams, streams.len()));
    }

    /// What is told of the segments rests on what was given and on which of them have ended.
    proof fn lemma_same_is_told(&self, other: StreamMerge)
        requires
            self.given() == other.given(),
            self.windows@.len() == other.windows@.len(),
            forall|i: int|
                0 <= i < self.windows@.len() ==> (#[trigger] self.windows@[i]).ended
                    == other.windows@[i].ended,
        ensures
            self.is_broken() ==> forall|error: RecordError|
                is_source_error(error) ==> #[trigger] other.must_fail(error),
            forall|error: RecordError| self.must_fail(error) ==> #[trigger] other.must_fail(error),
            forall|records: Seq<SpillRecord>|
                self.must_give(records) ==> #[trigger] other.must_give(records),
    {
        assert forall|more: Seq<Seq<u8>>| #[trigger] other.allowed(more) implies self.allowed(
            more,
        ) by {
            assert forall|i: int|
                0 <= i < more.len() && (#[trigger] self.windows@[i]).ended implies more[i].len()
                == 0 by {
                assert(other.windows@[i].ended);
            }
        }
    }

    /// Hands out the posting lists that have come together.
    fn hand_out(&mut self) -> (step: MergeStep)
        requires
            old(self).well_formed(),
        ensures
            final(self).well_formed(),
            final(self).windows == old(self).windows,
            final(self).heads == old(self).heads,
            final(self).announced == old(self).announced,
            step matches MergeStep::Write(bytes) && bytes@ == old(self).chunk@
                && final(self).written@ == old(self).written@ + bytes@,
    {
        let ghost start = *self;
        let mut bytes: Vec<u8> = Vec::new();
        std::mem::swap(&mut bytes, &mut self.chunk);
        self.written = Ghost(start.written@ + bytes@);
        proof {
            assert(self.written@ + self.chunk@ =~= start.written@ + start.chunk@);
            assert forall|more: Seq<Seq<u8>>| #[trigger] self.allowed(more) implies self.tells(
                more,
            ) by {
                assert(start.allowed(more));
                assert(start.tells(more));
                assert(self.left(more) =~= start.left(more));
            }
        }
        MergeStep::Write(bytes)
    }

    /// Goes on with the merge until something is asked for or `limit` bytes can be handed out.
    pub fn step(&mut self, limit: usize) -> (step: MergeStep)
        requires
            old(self).well_formed(),
            limit > 0,
        ensures
            final(self).given() == old(self).given(),
            final(self).windows@.len() == old(self).windows@.len(),
            forall|i: int|
                0 <= i < final(self).windows@.len() ==> (#[trigger] final(self).windows@[i]).ended
                    == old(self).windows@[i].ended,
            final(self).announced == old(self).announced,
            match step {
                MergeStep::Need(segment) => {
                    &&& final(self).well_formed()
                    &&& final(self).written == old(self).written
                    &&& segment < final(self).windows@.len()
                    &&& final(self).heads@[segment as int] is None
                    &&& final(self).windows@[segment as int].hungry()
                },
                MergeStep::Write(bytes) => {
                    &&& final(self).well_formed()
                    &&& bytes@.len() > 0
                    &&& final(self).written@ == old(self).written@ + bytes@
                },
                MergeStep::Done => {
                    let records = merged(whole_streams(final(self).given()));
                    &&& final(self).well_formed()
                    &&& all_whole(final(self).given())
                    &&& old(self).must_give(records)
                    &&& final(self).written == old(self).written
                    &&& final(self).written@ == record_bytes(records)
                    &&& final(self).lookup.stands_for(records)
                },
                MergeStep::Failed(error) => old(self).must_fail(error),
            },
    {
        let ghost start = *self;
        let mut i: usize = 0;
        while i < self.windows.len()
            invariant
                start == *old(self),
                self.well_formed(),
                self.given() == start.given(),
                self.windows@.len() == start.windows@.len(),
                forall|k: int|
                    0 <= k < self.windows@.len() ==> (#[trigger] self.windows@[k]).ended
                        == start.windows@[k].ended,
                self.written == start.written,
                self.announced == start.announced,
                i <= self.windows@.len(),
                forall|k: int| 0 <= k < i ==> #[trigger] self.loaded(k),
            decreases self.windows@.len() - i,
        {
            if self.heads[i].is_none() {
                let ghost before = *self;
                match self.fetch(i) {
                    None => {},
                    Some(hindrance) => {
                        proof {
                            before.lemma_same_is_told(start);
                        }
                        return hindrance;
                    },
                }
                proof {
                    assert forall|k: int| 0 <= k < i implies #[trigger] self.loaded(k) by {
                        assert(before.loaded(k));
                        assert(self.windows@[k] == before.windows@[k]);
                        assert(self.heads@[k] == before.heads@[k]);
                    }
                }
            }
            i += 1;
        }
        while self.chunk.len() < limit
            invariant
                start == *old(self),
                self.well_formed(),
                self.given() == start.given(),
                self.windows@.len() == start.windows@.len(),
                forall|k: int|
                    0 <= k < self.windows@.len() ==> (#[trigger] self.windows@[k]).ended
                        == start.windows@[k].ended,
                self.written == start.written,
                self.announced == start.announced,
                forall|k: int| 0 <= k < self.windows@.len() ==> #[trigger] self.loaded(k),
            decreases limit + 6 - self.chunk@.len(),
        {
            let ghost before = *self;
            match self.take_least() {
                Ok(Some(s)) => {
                    let ghost taken = *self;
                    match self.fetch(s) {
                        None => {},
                        Some(hindrance) => {
                            proof {
                                taken.lemma_same_is_told(start);
                            }
                            return hindrance;
                        },
                    }
                    proof {
                        assert forall|k: int| 0 <= k < self.windows@.len() implies #[trigger] self.loaded(
                            k,
                        ) by {
                            if k != s {
                                assert(before.loaded(k));
                                assert(self.windows@[k] == before.windows@[k]);
                                assert(self.heads@[k] == before.heads@[k]);
                            }
                        }
                    }
                },
                Ok(None) => {
                    if self.chunk.len() == 0 {
                        proof {
                            self.lemma_given_is_whole();
                            before.lemma_same_is_told(start);
                        }
                        assert(self.written@ + self.chunk@ =~= self.written@);
                        return MergeStep::Done;
                    }
                    return self.hand_out();
                },
                Err(error) => {
                    proof {
                        before.lemma_same_is_told(start);
                    }
                    return MergeStep::Failed(error);
                },
            }
        }
        self.hand_out()
    }
}

} // verus!
