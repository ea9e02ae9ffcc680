//! Writing a cache file piece by piece, from segments that are read piece by piece.

use crate::codec::lemma_le_bytes_len;
use crate::codec::u32_bytes;
use crate::codec::u64_bytes;
use crate::codec::write_u32;
use crate::codec::write_u64;
use crate::format::build_file_trigram_count_extension;
use crate::format::build_lookup_section_bytes;
use crate::format::build_postings_header_bytes;
use crate::format::cache_file;
use crate::format::counts_extension;
use crate::format::header_bytes;
use crate::format::postings_body;
use crate::format::with_checksum;
use crate::format::CACHE_MAGIC;
use crate::format::CacheWriteError;
use crate::format::CacheWritePlan;
use crate::format::Header;
use crate::merge::lookup_of;
use crate::merge::merged;
use crate::merge_laws::lemma_blob_piece;
use crate::merge_laws::lemma_lookup_is_ascending;
use crate::merge_laws::trigrams_sorted;
use crate::outside::crc_fed;
use crate::outside::crc_hasher;
use crate::outside::crc_sum;
use crate::outside::feed_crc;
use crate::path::SearchPath;
use crate::path_text::push_bytes;
use crate::postings::BasePostings;
use crate::records::record_bytes;
use crate::records::INDEX_VERSION;
use crate::records::RecordError;
use crate::records::SpillRecord;
use crate::stream_merge::all_whole;
use crate::stream_merge::announced_records;
use crate::stream_merge::byte_views;
use crate::stream_merge::front_error;
use crate::stream_merge::lemma_announcements_are_kept;
use crate::stream_merge::whole_streams;
use crate::stream_merge::MergeStep;
use crate::stream_merge::StreamMerge;
use vstd::prelude::*;

verus! {

/// How many bytes of posting lists are handed out at a time, about.
pub const PIECE_BYTES: usize = 1_048_576;

/// A cache file under way.
pub struct CacheStream {
    pub merge: StreamMerge,
    /// The checksum of the section of the posting lists so far.
    pub hasher: crc32fast::Hasher,
    /// The table of trigram counts.
    pub extension: Vec<u8>,
    pub blob_start: u64,
    pub header: Ghost<Header>,
    pub counts: Ghost<Seq<u32>>,
    /// The file so far.
    pub written: Ghost<Seq<u8>>,
}

/// What writing a cache file asks for next.
pub enum CacheStep {
    /// More bytes of a segment, or word that it has ended.
    Need(usize),
    /// What comes next in the file.
    Write(Vec<u8>),
    /// The posting lists are written, and the end of the file is left.
    Finish,
    Failed(RecordError),
}

/// How long the section of the posting lists is, with its checksum.
pub open spec fn section_len(header: Header, counts: Seq<u32>, announced: int) -> int {
    header_bytes(header).len() + 8 + 6 * announced + counts_extension(counts).len() + 4
}

/// What stands in front of the section of the posting lists.
pub open spec fn file_front(len: int) -> Seq<u8> {
    u32_bytes(CACHE_MAGIC) + u32_bytes(INDEX_VERSION) + u64_bytes(len as u64)
}

/// What stands in front of the posting lists in their section.
pub open spec fn section_front(header: Header, announced: int) -> Seq<u8> {
    header_bytes(header) + u64_bytes((6 * announced) as u64)
}

/// The file would be longer than can be told.
pub open spec fn too_long(
    plan: CacheWritePlan,
    canonical_paths: Seq<Option<SearchPath>>,
    fronts: Seq<Seq<u8>>,
) -> bool {
    ||| exists|count: int|
        0 <= count <= fronts.len() && 6 * #[trigger] announced_records(fronts, count) > u64::MAX
    ||| section_len(
        plan.header(canonical_paths),
        plan.file_trigram_count@,
        announced_records(fronts, fronts.len() as int),
    ) + 16 > u64::MAX
}

/// Why a cache file cannot be begun: the header does not fit, a segment does not begin as one, the
/// file would be too long, or the table of trigram counts is.
pub open spec fn begin_error(
    plan: CacheWritePlan,
    canonical_paths: Seq<Option<SearchPath>>,
    fronts: Seq<Seq<u8>>,
    error: CacheWriteError,
) -> bool {
    match plan.header_error(canonical_paths) {
        Some(first) => error == first,
        None => match error {
            CacheWriteError::Records(RecordError::PostingsBlobTooLarge) => too_long(
                plan,
                canonical_paths,
                fronts,
            ),
            CacheWriteError::Records(first) => front_error(fronts, 0) == Some(first),
            CacheWriteError::TooManyCounts => front_error(fronts, 0) is None
                && plan.file_trigram_count@.len() > u32::MAX,
            _ => false,
        },
    }
}

/// The segments are the same, and the same have ended.
pub open spec fn same_segments(before: StreamMerge, after: StreamMerge) -> bool {
    &&& after.given() == before.given()
    &&& after.windows@.len() == before.windows@.len()
    &&& forall|i: int|
        0 <= i < after.windows@.len() ==> (#[trigger] after.windows@[i]).ended
            == before.windows@[i].ended
}

/// `after` is `before` once a segment was given `bytes`.
pub open spec fn is_fed(before: CacheStream, segment: int, bytes: Seq<u8>, after: CacheStream) -> bool {
    &&& after.well_formed()
    &&& after.header == before.header
    &&& after.counts == before.counts
    &&& after.written == before.written
    &&& after.merge.written == before.merge.written
    &&& after.given() == before.given().update(segment, before.given()[segment] + bytes)
    &&& after.merge.windows@.len() == before.merge.windows@.len()
    &&& forall|i: int|
        0 <= i < after.merge.windows@.len() ==> (#[trigger] after.merge.windows@[i]).ended
            == before.merge.windows@[i].ended
}

/// `after` is `before` once a segment was said to have ended.
pub open spec fn is_ended(before: CacheStream, segment: int, after: CacheStream) -> bool {
    &&& after.well_formed()
    &&& after.header == before.header
    &&& after.counts == before.counts
    &&& after.written == before.written
    &&& after.merge.written == before.merge.written
    &&& after.given() == before.given()
    &&& after.merge.windows@.len() == before.merge.windows@.len()
    &&& forall|i: int|
        0 <= i < after.merge.windows@.len() ==> (#[trigger] after.merge.windows@[i]).ended == (i
            == segment || before.merge.windows@[i].ended)
}

/// `after` is `before` once it has gone on as far as `step`. Bytes are asked for where a record of a
/// segment cannot be told without them; the end of the file is left where all posting lists are
/// written; and writing fails where it must, whatever may still be given.
pub open spec fn is_step(before: CacheStream, step: CacheStep, after: CacheStream) -> bool {
    &&& after.header == before.header
    &&& after.counts == before.counts
    &&& same_segments(before.merge, after.merge)
    &&& match step {
        CacheStep::Need(segment) => {
            &&& after.well_formed()
            &&& after.written == before.written
            &&& after.merge.written == before.merge.written
            &&& segment < after.merge.windows@.len()
            &&& after.merge.heads@[segment as int] is None
            &&& after.merge.windows@[segment as int].hungry()
        },
        CacheStep::Write(bytes) => {
            &&& after.well_formed()
            &&& bytes@.len() > 0
            &&& after.written@ == before.written@ + bytes@
            &&& after.merge.written@ == before.merge.written@ + bytes@
        },
        CacheStep::Finish => {
            &&& after.well_formed()
            &&& after.written == before.written
            &&& after.merge.written == before.merge.written
            &&& after.lists_written()
            &&& before.merge.must_give(after.records())
        },
        CacheStep::Failed(error) => before.merge.must_fail(error),
    }
}

impl CacheStream {
    pub open spec fn well_formed(&self) -> bool {
        let announced = self.merge.announced as int;
        &&& self.merge.well_formed()
        &&& section_len(self.header@, self.counts@, announced) <= u64::MAX
        &&& self.extension@ == counts_extension(self.counts@)
        &&& self.blob_start == 16 + header_bytes(self.header@).len() + 8
        &&& crc_fed(self.hasher) == section_front(self.header@, announced) + self.merge.written@
        &&& self.written@ == file_front(section_len(self.header@, self.counts@, announced))
            + crc_fed(self.hasher)
    }

    /// The segments as they were given.
    pub open spec fn given(&self) -> Seq<Seq<u8>> {
        self.merge.given()
    }

    /// The records that the segments merge into.
    pub open spec fn records(&self) -> Seq<SpillRecord> {
        merged(whole_streams(self.given()))
    }

    /// All posting lists are written.
    pub open spec fn lists_written(&self) -> bool {
        &&& all_whole(self.given())
        &&& self.merge.written@ == record_bytes(self.records())
        &&& self.merge.lookup.stands_for(self.records())
    }

    /// Starts a cache file; gives its first bytes. `fronts` are the first bytes of the segments.
    pub fn begin(
        plan: &CacheWritePlan,
        canonical_paths: &Vec<Option<SearchPath>>,
        fronts: Vec<Vec<u8>>,
    ) -> (begun: Result<(CacheStream, Vec<u8>), CacheWriteError>)
        requires
            canonical_paths@.len() == plan.files@.len(),
        ensures
            match begun {
                Ok((stream, front)) => {
                    &&& plan.header_fits(canonical_paths@)
                    &&& front_error(byte_views(fronts@), 0) is None
                    &&& plan.file_trigram_count@.len() <= u32::MAX
                    &&& stream.well_formed()
                    &&& stream.header@ == plan.header(canonical_paths@)
                    &&& stream.counts@ == plan.file_trigram_count@
                    &&& stream.given() == byte_views(fronts@)
                    &&& forall|i: int|
                        0 <= i < stream.merge.windows@.len() ==> !(
                        #[trigger] stream.merge.windows@[i]).ended
                    &&& stream.written@ == front@
                },
                Err(error) => begin_error(*plan, canonical_paths@, byte_views(fronts@), error),
            },
    {
        let header = match build_postings_header_bytes(plan, canonical_paths) {
            Ok(header) => header,
            Err(error) => {
                return Err(error);
            },
        };
        proof {
            plan.lemma_header_error(canonical_paths@);
        }
        let merge = match StreamMerge::open(fronts) {
            Ok(merge) => merge,
            Err(error) => {
                return Err(CacheWriteError::Records(error));
            },
        };
        let extension = match build_file_trigram_count_extension(&plan.file_trigram_count) {
            Ok(extension) => extension,
            Err(error) => {
                return Err(error);
            },
        };
        let ghost head = plan.header(canonical_paths@);
        let ghost counts = plan.file_trigram_count@;
        let blob_len: u64 = 6 * merge.announced;
        let len: u64 = match Self::sum_of(header.len(), blob_len, extension.len()) {
            Some(len) => len,
            None => {
                return Err(CacheWriteError::Records(RecordError::PostingsBlobTooLarge));
            },
        };
        let blob_start: u64 = header.len() as u64 + 24;
        let mut section: Vec<u8> = header;
        write_u64(&mut section, blob_len);
        let mut hasher = crc_hasher();
        proof {
            lemma_le_bytes_len(blob_len as int, 8);
            assert(crc_fed(hasher) + section@ =~= section@);
        }
        feed_crc(&mut hasher, section.as_slice());
        let mut front: Vec<u8> = Vec::new();
        write_u32(&mut front, CACHE_MAGIC);
        write_u32(&mut front, INDEX_VERSION);
        write_u64(&mut front, len);
        push_bytes(&mut front, section.as_slice());
        proof {
            assert(merge.written@ =~= Seq::<u8>::empty());
            assert(section@ =~= section_front(head, merge.announced as int));
            assert(crc_fed(hasher) =~= section_front(head, merge.announced as int)
                + merge.written@);
            assert(len == section_len(head, counts, merge.announced as int));
            assert(front@ =~= file_front(len as int) + crc_fed(hasher));
        }
        let stream = CacheStream {
            merge,
            hasher,
            extension,
            blob_start,
            header: Ghost(head),
            counts: Ghost(counts),
            written: Ghost(front@),
        };
        Ok((stream, front))
    }

    /// The length of the section, where the whole up to its end can be told.
    fn sum_of(header: usize, blob: u64, extension: usize) -> (sum: Option<u64>)
        ensures
            match sum {
                Some(sum) => sum == header + 8 + blob + extension + 4 && sum + 16 <= u64::MAX,
                None => header + 8 + blob + extension + 4 + 16 > u64::MAX,
            },
    {
        let front: u64 = match blob.checked_add(header as u64) {
            Some(front) => front,
            None => {
                return None;
            },
        };
        let whole: u64 = match front.checked_add(extension as u64) {
            Some(whole) => whole,
            None => {
                return None;
            },
        };
        match whole.checked_add(28) {
            Some(end) => Some(end - 16),
            None => None,
        }
    }

    /// Gives the bytes of a segment that come next.
    pub fn feed(&mut self, segment: usize, bytes: &[u8])
        requires
            old(self).well_formed(),
            segment < old(self).merge.windows@.len(),
            !old(self).merge.windows@[segment as int].ended,
        ensures
            is_fed(*old(self), segment as int, bytes@, *final(self)),
    {
        self.merge.feed(segment, bytes);
    }

    /// Says that a segment has no more bytes.
    pub fn end(&mut self, segment: usize)
        requires
            old(self).well_formed(),
            segment < old(self).merge.windows@.len(),
        ensures
            is_ended(*old(self), segment as int, *final(self)),
    {
        self.merge.end(segment);
    }

    /// Goes on until something is asked for or there is something to write.
    pub fn step(&mut self) -> (step: CacheStep)
        requires
            old(self).well_formed(),
        ensures
            is_step(*old(self), step, *final(self)),
    {
        let ghost start = *self;
        match self.merge.step(PIECE_BYTES) {
            MergeStep::Need(segment) => CacheStep::Need(segment),
            MergeStep::Write(bytes) => {
                proof {
                    self.merge.lemma_written_fits();
                    lemma_le_bytes_len(6 * self.merge.announced as int, 8);
                }
                feed_crc(&mut self.hasher, bytes.as_slice());
                self.written = Ghost(start.written@ + bytes@);
                proof {
                    let front = section_front(self.header@, self.merge.announced as int);
                    assert((front + start.merge.written@) + bytes@ =~= front
                        + self.merge.written@);
                    let first = file_front(
                        section_len(self.header@, self.counts@, self.merge.announced as int),
                    );
                    assert((first + crc_fed(start.hasher)) + bytes@ =~= first + crc_fed(
                        self.hasher,
                    ));
                }
                CacheStep::Write(bytes)
            },
            MergeStep::Done => CacheStep::Finish,
            MergeStep::Failed(error) => CacheStep::Failed(error),
        }
    }

    /// The end of the file, and where its posting lists stand.
    pub fn finish(self) -> (finished: Result<(Vec<u8>, BasePostings), CacheWriteError>)
        requires
            self.well_formed(),
            self.lists_written(),
        ensures
            match finished {
                Ok((tail, base)) => {
                    &&& lookup_of(self.records()).len() <= u32::MAX
                    &&& self.written@ + tail@ == cache_file(
                        self.header@,
                        self.records(),
                        self.counts@,
                    )
                    &&& base.postings_blob_start == 16 + header_bytes(self.header@).len() + 8
                    &&& base.postings_blob_len == 6 * self.records().len()
                    &&& base.lookup@ == lookup_of(self.records())
                    &&& trigrams_sorted(self.records()) ==> base.well_formed()
                },
                Err(error) => lookup_of(self.records()).len() > u32::MAX && error
                    == CacheWriteError::TooManyLookupEntries,
            },
    {
        let ghost records = self.records();
        let lookup = match build_lookup_section_bytes(&self.merge.lookup.entries) {
            Ok(lookup) => lookup,
            Err(error) => {
                return Err(error);
            },
        };
        let mut hasher = self.hasher;
        proof {
            lemma_announcements_are_kept(self.given());
            assert(self.given().len() == self.merge.windows@.len());
            assert(records.len() == self.merge.announced);
            lemma_blob_piece(records, 0, 0);
            lemma_le_bytes_len(6 * self.merge.announced as int, 8);
        }
        feed_crc(&mut hasher, self.extension.as_slice());
        let sum: u32 = crc_sum(&hasher);
        let mut tail: Vec<u8> = self.extension;
        write_u32(&mut tail, sum);
        push_bytes(&mut tail, lookup.as_slice());
        proof {
            let body = postings_body(self.header@, records, self.counts@);
            assert(crc_fed(hasher) =~= body);
            lemma_le_bytes_len(sum as int, 4);
            assert(with_checksum(body).len() == section_len(
                self.header@,
                self.counts@,
                self.merge.announced as int,
            ));
            assert(self.written@ + tail@ =~= cache_file(self.header@, records, self.counts@));
            if trigrams_sorted(records) {
                lemma_lookup_is_ascending(records);
            }
        }
        Ok(
            (
                tail,
                BasePostings {
                    postings_blob_start: self.blob_start,
                    postings_blob_len: self.merge.lookup.blob_len,
                    lookup: self.merge.lookup.entries,
                },
            ),
        )
    }
}

} // verus!
