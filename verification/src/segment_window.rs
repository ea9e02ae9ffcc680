//! A segment that is read piece by piece.

use crate::codec::read_u32;
use crate::codec::u32_at;
use crate::codec::u64_at;
use crate::path_text::copy_range;
use crate::path_text::push_bytes;
use crate::records::is_source_error;
use crate::records::open_error;
use crate::records::record_at;
use crate::records::segment_records;
use crate::records::RecordError;
use crate::records::SpillRecord;
use crate::records::SpillSegmentSource;
use vstd::prelude::*;

verus! {

/// A segment under way. Of the bytes that were given only those are kept that are still to be read.
pub struct SegmentWindow {
    pub buffer: Vec<u8>,
    pub at: usize,
    pub remaining_records: u64,
    pub current_trigram: u32,
    pub remaining_in_group: u32,
    /// No more bytes will be given.
    pub ended: bool,
    /// All bytes that were given.
    pub given: Ghost<Seq<u8>>,
}

/// What asking for the next record comes to.
#[derive(Clone, Copy, Debug)]
pub enum Fetched {
    Record(SpillRecord),
    /// More bytes are needed to tell.
    Hungry,
    /// The segment has no further record.
    Over,
    Broken(RecordError),
}

/// The records of a segment, and whether it ends as it should.
pub open spec fn whole_segment(bytes: Seq<u8>) -> (Seq<SpillRecord>, bool) {
    segment_records(bytes, 20, u64_at(bytes, 12) as nat, 0, 0)
}

impl SegmentWindow {
    /// How many bytes were read.
    pub open spec fn position(&self) -> int {
        self.given@.len() - self.buffer@.len() + self.at
    }

    pub open spec fn well_formed(&self) -> bool {
        &&& self.at <= self.buffer@.len()
        &&& self.buffer@.len() <= self.given@.len()
        &&& self.buffer@ == self.given@.skip(self.given@.len() - self.buffer@.len())
    }

    /// The records to come, and whether the segment ends as it should, if the bytes that are still to
    /// be given are `more`.
    pub open spec fn rest(&self, more: Seq<u8>) -> (Seq<SpillRecord>, bool) {
        segment_records(
            self.given@ + more,
            self.position(),
            self.remaining_records as nat,
            self.current_trigram,
            self.remaining_in_group as nat,
        )
    }

    /// A record is to come, and the bytes at hand do not hold it whole.
    pub open spec fn hungry(&self) -> bool {
        &&& !self.ended
        &&& self.remaining_records > 0
        &&& self.buffer@.len() - self.at < (if self.remaining_in_group == 0 {
            14int
        } else {
            6
        })
    }

    /// What lies in the buffer lies in the segment, whatever is still to be given.
    proof fn lemma_buffered(&self, more: Seq<u8>, skip: int, len: int)
        requires
            self.well_formed(),
            0 <= skip,
            0 <= len,
            self.at + skip + len <= self.buffer@.len(),
        ensures
            (self.given@ + more).subrange(
                self.position() + skip,
                self.position() + skip + len,
            ) == self.buffer@.subrange(self.at + skip, self.at + skip + len),
    {
        assert((self.given@ + more).subrange(
            self.position() + skip,
            self.position() + skip + len,
        ) =~= self.buffer@.subrange(self.at + skip, self.at + skip + len));
    }

    /// Starts reading a segment with its first bytes.
    pub fn open(front: Vec<u8>) -> (window: Result<SegmentWindow, RecordError>)
        ensures
            match window {
                Ok(window) => {
                    &&& open_error(front@) is None
                    &&& window.well_formed()
                    &&& !window.ended
                    &&& window.given@ == front@
                    &&& window.remaining_records == u64_at(front@, 12)
                    &&& forall|more: Seq<u8>| #[trigger]
                        window.rest(more) == whole_segment(front@ + more)
                },
                Err(error) => open_error(front@) == Some(error),
            },
    {
        let ghost given = front@;
        match SpillSegmentSource::open(front) {
            Ok(source) => {
                let window = SegmentWindow {
                    buffer: source.bytes,
                    at: source.at,
                    remaining_records: source.remaining_records,
                    current_trigram: source.current_trigram,
                    remaining_in_group: source.remaining_in_group,
                    ended: false,
                    given: Ghost(given),
                };
                proof {
                    assert(given.skip(0) =~= given);
                    assert forall|more: Seq<u8>| #[trigger]
                        window.rest(more) == whole_segment(given + more) by {
                        assert((given + more).subrange(12, 20) =~= given.subrange(12, 20));
                    }
                }
                Ok(window)
            },
            Err(error) => Err(error),
        }
    }

    /// The next record, as far as it can be told.
    pub fn next(&mut self) -> (fetched: Fetched)
        requires
            old(self).well_formed(),
        ensures
            final(self).well_formed(),
            final(self).given == old(self).given,
            final(self).ended == old(self).ended,
            match fetched {
                Fetched::Record(record) => forall|more: Seq<u8>|
                    #![trigger old(self).rest(more)]
                    #![trigger final(self).rest(more)]
                    old(self).rest(more) == (
                        seq![record] + final(self).rest(more).0,
                        final(self).rest(more).1,
                    ),
                Fetched::Hungry => *final(self) == *old(self) && old(self).hungry(),
                Fetched::Over => *final(self) == *old(self) && forall|more: Seq<u8>| #[trigger]
                    old(self).rest(more) == (Seq::<SpillRecord>::empty(), true),
                Fetched::Broken(error) => {
                    &&& *final(self) == *old(self)
                    &&& is_source_error(error)
                    &&& forall|more: Seq<u8>|
                        (old(self).ended ==> more.len() == 0) ==> #[trigger] old(self).rest(more)
                            == (Seq::<SpillRecord>::empty(), false)
                },
            },
    {
        let ghost start = *self;
        if self.remaining_records == 0 {
            return Fetched::Over;
        }
        let available: usize = self.buffer.len() - self.at;
        let needed: usize = if self.remaining_in_group == 0 {
            14
        } else {
            6
        };
        if self.remaining_in_group == 0 && available >= 8 {
            let count: u32 = read_u32(self.buffer.as_slice(), self.at + 4);
            if count == 0 {
                proof {
                    assert forall|more: Seq<u8>| #[trigger] start.rest(more) == (
                        Seq::<SpillRecord>::empty(),
                        false,
                    ) by {
                        start.lemma_buffered(more, 4, 4);
                    }
                }
                return Fetched::Broken(RecordError::EmptySpillGroup);
            }
        }
        if available < needed {
            if !self.ended {
                return Fetched::Hungry;
            }
            proof {
                assert forall|more: Seq<u8>| more.len() == 0 implies #[trigger] start.rest(more)
                    == (Seq::<SpillRecord>::empty(), false) by {}
            }
            return Fetched::Broken(RecordError::UnexpectedEnd);
        }
        let mut trigram: u32 = self.current_trigram;
        let mut in_group: u32 = self.remaining_in_group;
        let mut at: usize = self.at;
        if in_group == 0 {
            trigram = read_u32(self.buffer.as_slice(), at);
            in_group = read_u32(self.buffer.as_slice(), at + 4);
            at = at + 8;
        }
        let record = SpillRecord {
            trigram,
            file_id: read_u32(self.buffer.as_slice(), at),
            next_mask: self.buffer[at + 4],
            loc_mask: self.buffer[at + 5],
        };
        self.current_trigram = trigram;
        self.remaining_in_group = in_group - 1;
        self.remaining_records = self.remaining_records - 1;
        self.at = at + 6;
        proof {
            let skip = at - start.at;
            assert forall|more: Seq<u8>|
                #![trigger start.rest(more)]
                #![trigger self.rest(more)]
                start.rest(more) == (seq![record] + self.rest(more).0, self.rest(more).1) by {
                let all = start.given@ + more;
                if skip == 8 {
                    start.lemma_buffered(more, 0, 4);
                    start.lemma_buffered(more, 4, 4);
                }
                start.lemma_buffered(more, skip as int, 4);
                assert(all[start.position() + skip + 4] == start.buffer@[at + 4]);
                assert(all[start.position() + skip + 5] == start.buffer@[at + 5]);
                assert(record_at(all, start.position() + skip, trigram) == record);
            }
        }
        Fetched::Record(record)
    }

    /// Gives the bytes that come next.
    pub fn feed(&mut self, bytes: &[u8])
        requires
            old(self).well_formed(),
            !old(self).ended,
        ensures
            final(self).well_formed(),
            !final(self).ended,
            final(self).given@ == old(self).given@ + bytes@,
            final(self).remaining_records == old(self).remaining_records,
            forall|more: Seq<u8>| #[trigger]
                final(self).rest(more) == old(self).rest(bytes@ + more),
    {
        let ghost start = *self;
        let mut buffer: Vec<u8> = copy_range(self.buffer.as_slice(), self.at, self.buffer.len());
        push_bytes(&mut buffer, bytes);
        self.buffer = buffer;
        self.at = 0;
        self.given = Ghost(start.given@ + bytes@);
        proof {
            assert(self.buffer@ =~= self.given@.skip(self.given@.len() - self.buffer@.len()));
            assert forall|more: Seq<u8>| #[trigger] self.rest(more) == start.rest(
                bytes@ + more,
            ) by {
                assert(self.given@ + more =~= start.given@ + (bytes@ + more));
            }
        }
    }

    /// Says that there are no more bytes.
    pub fn end(&mut self)
        requires
            old(self).well_formed(),
        ensures
            final(self).well_formed(),
            final(self).ended,
            final(self).given == old(self).given,
            final(self).remaining_records == old(self).remaining_records,
            forall|more: Seq<u8>| #[trigger] final(self).rest(more) == old(self).rest(more),
    {
        self.ended = true;
    }
}

/// A segment has no more records than it says, and one that ends as it should has as many.
pub proof fn lemma_segment_len(
    bytes: Seq<u8>,
    at: int,
    remaining: nat,
    trigram: u32,
    in_group: nat,
)
    ensures
        segment_records(bytes, at, remaining, trigram, in_group).0.len() <= remaining,
        segment_records(bytes, at, remaining, trigram, in_group).1 ==> segment_records(
            bytes,
            at,
            remaining,
            trigram,
            in_group,
        ).0.len() == remaining,
    decreases remaining,
{
    if remaining > 0 {
        if in_group == 0 {
            lemma_segment_len(
                bytes,
                at + 14,
                (remaining - 1) as nat,
                u32_at(bytes, at),
                (u32_at(bytes, at + 4) - 1) as nat,
            );
        } else {
            lemma_segment_len(
                bytes,
                at + 6,
                (remaining - 1) as nat,
                trigram,
                (in_group - 1) as nat,
            );
        }
    }
}

} // verus!
