//! Laws of writing a cache file piece by piece: sound segments come to a file, in whatever pieces they
//! are given.

use crate::cache_stream::is_ended;
use crate::cache_stream::is_fed;
use crate::cache_stream::is_step;
use crate::cache_stream::CacheStep;
use crate::cache_stream::CacheStream;
use crate::merge::lookup_fits;
use crate::merge::merged;
use crate::records::SpillRecord;
use crate::stream_merge::all_whole;
use crate::stream_merge::lemma_announcements_are_kept;
use crate::stream_merge::longer;
use crate::stream_merge::whole_streams;
use vstd::prelude::*;

verus! {

/// What is done with a cache file under way.
pub enum StreamEvent {
    /// A segment is given its next bytes.
    Feed(int, Seq<u8>),
    /// A segment is said to have ended.
    End(int),
    /// The writing goes on.
    Step(CacheStep),
}

/// A cache file under way, from event to event.
pub struct StreamRun {
    pub states: Seq<CacheStream>,
    pub events: Seq<StreamEvent>,
}

/// What was given are beginnings of `segments`, and those that have ended were given whole.
pub open spec fn is_reading(stream: CacheStream, segments: Seq<Seq<u8>>) -> bool {
    &&& stream.given().len() == segments.len()
    &&& forall|i: int|
        0 <= i < segments.len() ==> (#[trigger] stream.given()[i]).is_prefix_of(segments[i])
    &&& forall|i: int|
        0 <= i < segments.len() && (#[trigger] stream.merge.windows@[i]).ended
            ==> stream.given()[i] == segments[i]
}

/// Every segment was given whole, and was said to have ended.
pub open spec fn all_ended(stream: CacheStream) -> bool {
    forall|i: int|
        0 <= i < stream.merge.windows@.len() ==> (#[trigger] stream.merge.windows@[i]).ended
}

/// The records that the segments hold, merged.
pub open spec fn records_of(segments: Seq<Seq<u8>>) -> Seq<SpillRecord> {
    merged(whole_streams(segments))
}

/// The event leads from one state to the next: only what stands next in a segment is given, and only
/// a segment that was given whole is said to have ended.
pub open spec fn leads_on(
    before: CacheStream,
    event: StreamEvent,
    after: CacheStream,
    segments: Seq<Seq<u8>>,
) -> bool {
    match event {
        StreamEvent::Feed(i, bytes) => {
            &&& 0 <= i < segments.len()
            &&& !before.merge.windows@[i].ended
            &&& (before.given()[i] + bytes).is_prefix_of(segments[i])
            &&& is_fed(before, i, bytes, after)
        },
        StreamEvent::End(i) => {
            &&& 0 <= i < segments.len()
            &&& before.given()[i] == segments[i]
            &&& is_ended(before, i, after)
        },
        StreamEvent::Step(step) => is_step(before, step, after),
    }
}

impl StreamRun {
    /// The run starts with beginnings of `segments`, and goes on with what comes next in them.
    pub open spec fn is_of(self, segments: Seq<Seq<u8>>) -> bool {
        &&& self.states.len() == self.events.len() + 1
        &&& self.states[0].well_formed()
        &&& is_reading(self.states[0], segments)
        &&& forall|k: int|
            0 <= k < self.events.len() ==> leads_on(
                self.states[k],
                #[trigger] self.events[k],
                self.states[k + 1],
                segments,
            )
    }

    /// Event number `k` is no failure. Bytes are asked for only of a segment that has not ended; what
    /// is written is not empty; the lists are complete where the end of the file is left; and that
    /// comes where all segments have ended and all lists are written.
    pub open spec fn goes_well(self, k: int, segments: Seq<Seq<u8>>) -> bool {
        let before = self.states[k];
        let after = self.states[k + 1];
        self.events[k] matches StreamEvent::Step(step) ==> {
            &&& match step {
                CacheStep::Need(segment) => segment < segments.len()
                    && !before.merge.windows@[segment as int].ended,
                CacheStep::Write(bytes) => bytes@.len() > 0 && after.written@ == before.written@
                    + bytes@,
                CacheStep::Finish => after.lists_written() && after.records() == records_of(
                    segments,
                ),
                CacheStep::Failed(_) => false,
            }
            &&& all_ended(before) ==> !(step is Need)
            &&& all_ended(before) && before.merge.written@.len() == 6 * records_of(segments).len()
                ==> step is Finish
        }
    }
}

/// What is still to be given may be given.
proof fn lemma_rest_is_allowed(stream: CacheStream, segments: Seq<Seq<u8>>) -> (more: Seq<Seq<u8>>)
    requires
        is_reading(stream, segments),
    ensures
        stream.merge.allowed(more),
        longer(stream.given(), more) == segments,
{
    let given = stream.given();
    let more = Seq::new(segments.len(), |i: int| segments[i].skip(given[i].len() as int));
    assert(given.len() == stream.merge.windows@.len());
    assert forall|i: int|
        0 <= i < more.len() && (#[trigger] stream.merge.windows@[i]).ended implies more[i].len()
        == 0 by {
        assert(given[i] == segments[i]);
    }
    assert forall|i: int| 0 <= i < segments.len() implies longer(given, more)[i]
        == segments[i] by {
        assert(given[i].is_prefix_of(segments[i]));
        assert(given[i] + more[i] =~= segments[i]);
    }
    assert(longer(given, more) =~= segments);
    more
}

/// No more is handed out than the records of the segments come to.
proof fn lemma_written_is_bounded(stream: CacheStream, segments: Seq<Seq<u8>>)
    requires
        stream.well_formed(),
        is_reading(stream, segments),
        all_ended(stream),
        all_whole(segments),
    ensures
        stream.given() == segments,
        stream.merge.written@.len() <= 6 * records_of(segments).len(),
{
    assert(stream.given().len() == stream.merge.windows@.len());
    assert forall|i: int| 0 <= i < segments.len() implies stream.given()[i] == segments[i] by {
        assert(stream.merge.windows@[i].ended);
    }
    assert(stream.given() =~= segments);
    stream.merge.lemma_written_fits();
    lemma_announcements_are_kept(segments);
}

proof fn lemma_event_goes_well(run: StreamRun, k: int, segments: Seq<Seq<u8>>)
    requires
        run.is_of(segments),
        all_whole(segments),
        lookup_fits(records_of(segments)),
        0 <= k < run.events.len(),
        run.states[k].well_formed(),
        is_reading(run.states[k], segments),
    ensures
        run.goes_well(k, segments),
        run.states[k + 1].well_formed(),
        is_reading(run.states[k + 1], segments),
        run.states[k + 1].header == run.states[k].header,
        run.states[k + 1].counts == run.states[k].counts,
{
    let before = run.states[k];
    let after = run.states[k + 1];
    assert(leads_on(before, run.events[k], after, segments));
    assert(before.given().len() == before.merge.windows@.len());
    assert(after.given().len() == after.merge.windows@.len());
    let more = lemma_rest_is_allowed(before, segments);
    assert forall|i: int| 0 <= i < segments.len() implies (
    #[trigger] after.given()[i]).is_prefix_of(segments[i]) by {
        assert(before.given()[i].is_prefix_of(segments[i]));
    }
    assert forall|i: int|
        0 <= i < segments.len() && (#[trigger] after.merge.windows@[i]).ended implies after.given()[i]
        == segments[i] by {
        if before.merge.windows@[i].ended {
            assert(before.given()[i] == segments[i]);
        }
    }
    if let StreamEvent::Step(step) = run.events[k] {
        assert(is_step(before, step, after));
        if all_ended(before) {
            assert forall|i: int| 0 <= i < after.merge.windows@.len() implies (
            #[trigger] after.merge.windows@[i]).ended by {
                assert(before.merge.windows@[i].ended);
            }
            if step is Need || step is Write || step is Finish {
                lemma_written_is_bounded(after, segments);
            }
        }
    }
}

/// Segments that can be read to their ends, and whose lists fit, are never refused, in whatever pieces
/// they are given: each step asks for more of a segment that has not ended, hands out bytes to write,
/// or says that only the end of the file is left; and that it says, at the latest, when all segments
/// have ended and all lists are written. The lists are then those of the segments.
pub proof fn lemma_sound_segments_are_written(run: StreamRun, segments: Seq<Seq<u8>>, count: int)
    requires
        run.is_of(segments),
        all_whole(segments),
        lookup_fits(records_of(segments)),
        0 <= count <= run.events.len(),
    ensures
        run.states[count].well_formed(),
        is_reading(run.states[count], segments),
        run.states[count].header == run.states[0].header,
        run.states[count].counts == run.states[0].counts,
        forall|k: int| 0 <= k < count ==> #[trigger] run.goes_well(k, segments),
    decreases count,
{
    if count > 0 {
        lemma_sound_segments_are_written(run, segments, count - 1);
        lemma_event_goes_well(run, count - 1, segments);
    }
}

/// Once all segments have ended, going on comes to the end: after more steps than the lists have bytes
/// one of them has said that only the end of the file is left.
pub proof fn lemma_writing_ends(run: StreamRun, segments: Seq<Seq<u8>>, from: int, to: int)
    requires
        run.is_of(segments),
        all_whole(segments),
        lookup_fits(records_of(segments)),
        0 <= from <= to <= run.events.len(),
        all_ended(run.states[from]),
        forall|k: int|
            from <= k < to ==> (#[trigger] run.events[k] matches StreamEvent::Step(step) && !(
            step is Finish)),
    ensures
        all_ended(run.states[to]),
        run.states[to].merge.written@.len() >= to - from,
        to - from <= 6 * records_of(segments).len(),
    decreases to,
{
    lemma_sound_segments_are_written(run, segments, to);
    if from < to {
        lemma_writing_ends(run, segments, from, to - 1);
        let before = run.states[to - 1];
        let after = run.states[to];
        assert(leads_on(before, run.events[to - 1], after, segments));
        assert(run.goes_well(to - 1, segments));
        assert forall|i: int| 0 <= i < after.merge.windows@.len() implies (
        #[trigger] after.merge.windows@[i]).ended by {
            assert(before.merge.windows@[i].ended);
        }
    }
    lemma_written_is_bounded(run.states[to], segments);
}

} // verus!
