//! Posting lists: which files hold a trigram, in memory and on disk.

use crate::codec::lemma_u32_at;
use crate::codec::lemma_u32_round_trip;
use crate::codec::read_u32;
use crate::codec::u32_at;
use crate::codec::u32_bytes;
use crate::codec::write_u32;
use crate::trigram::PostingFilter;
use std::collections::HashMap;
use vstd::prelude::*;

verus! {

/// Bytes of one posting on disk.
pub const POSTING_BYTES: usize = 6;

/// A file that holds some trigram, with the masks of the bytes after it and of its positions.
#[derive(Clone, Copy, Debug, PartialEq, Eq, Structural)]
pub struct Posting {
    pub file_id: u32,
    pub next_mask: u8,
    pub loc_mask: u8,
}

/// Where the posting list of one trigram stands in the blob.
#[derive(Clone, Copy, Debug, PartialEq, Eq, Structural)]
pub struct LookupEntry {
    pub trigram: u32,
    pub offset: u64,
    pub count: u32,
}

/// A file may hold what a query asks of this trigram. The filter's `next_mask` is a bloom filter:
/// a byte that follows the trigram in the query must follow it somewhere in the file. Positions in
/// a query say nothing of positions in a file, so `loc_mask` decides nothing.
pub open spec fn passes_filter(posting: Posting, filter: Option<PostingFilter>) -> bool {
    match filter {
        Some(filter) => filter.next_mask == 0 || posting.next_mask & filter.next_mask != 0,
        None => true,
    }
}

pub fn posting_matches_filter(posting: &Posting, filter: Option<PostingFilter>) -> (passes: bool)
    ensures
        passes == passes_filter(*posting, filter),
{
    if let Some(filter) = filter {
        if filter.next_mask != 0 && posting.next_mask & filter.next_mask == 0 {
            return false;
        }
    }
    true
}

// ---------------------------------------------------------------------------------------------
// Lists in memory
// ---------------------------------------------------------------------------------------------

/// In the order of file ids, each id once.
pub open spec fn ascending_postings(postings: Seq<Posting>) -> bool {
    forall|i: int, j: int|
        0 <= i < j < postings.len() ==> (#[trigger] postings[i]).file_id < (
        #[trigger] postings[j]).file_id
}

/// The place of `file_id` in an ascending list.
pub open spec fn insertion_point(postings: Seq<Posting>, file_id: u32, at: int) -> bool {
    &&& 0 <= at <= postings.len()
    &&& forall|i: int| 0 <= i < at ==> (#[trigger] postings[i]).file_id < file_id
    &&& forall|i: int| at <= i < postings.len() ==> (#[trigger] postings[i]).file_id >= file_id
}

pub open spec fn holds_file(postings: Seq<Posting>, file_id: u32) -> bool {
    exists|i: int| 0 <= i < postings.len() && (#[trigger] postings[i]).file_id == file_id
}

/// Puts `posting` in its place.
pub fn insert_delta_posting(postings: &mut Vec<Posting>, posting: Posting)
    requires
        ascending_postings(old(postings)@),
        !holds_file(old(postings)@, posting.file_id),
    ensures
        ascending_postings(final(postings)@),
        exists|at: int|
            insertion_point(old(postings)@, posting.file_id, at) && final(postings)@ == old(
                postings,
            )@.insert(at, posting),
{
    let ghost before = postings@;
    if postings.len() == 0 || postings[postings.len() - 1].file_id < posting.file_id {
        postings.push(posting);
        proof {
            let at = before.len() as int;
            assert(insertion_point(before, posting.file_id, at));
            assert(postings@ =~= before.insert(at, posting));
        }
        return;
    }
    let mut low: usize = 0;
    let mut high: usize = postings.len();
    while low < high
        invariant
            postings@ == before,
            ascending_postings(before),
            low <= high <= before.len(),
            forall|i: int| 0 <= i < low ==> (#[trigger] before[i]).file_id < posting.file_id,
            forall|i: int|
                high <= i < before.len() ==> (#[trigger] before[i]).file_id >= posting.file_id,
        decreases high - low,
    {
        let mid: usize = low + (high - low) / 2;
        if postings[mid].file_id < posting.file_id {
            low = mid + 1;
        } else {
            high = mid;
        }
    }
    postings.insert(low, posting);
    proof {
        assert(insertion_point(before, posting.file_id, low as int));
        let after = postings@;
        assert(after == before.insert(low as int, posting));
        assert forall|i: int, j: int| 0 <= i < j < after.len() implies (
        #[trigger] after[i]).file_id < (#[trigger] after[j]).file_id by {
            if i == low {
                assert(after[j] == before[j - 1]);
                assert(before[j - 1].file_id != posting.file_id);
            }
        }
    }
}

/// The list without the posting of `file_id`.
pub open spec fn without_file(postings: Seq<Posting>, file_id: u32) -> Seq<Posting> {
    postings.filter(|posting: Posting| posting.file_id != file_id)
}

pub fn retain_other_files(postings: &Vec<Posting>, file_id: u32) -> (kept: Vec<Posting>)
    ensures
        kept@ == without_file(postings@, file_id),
{
    let ghost other = |posting: Posting| posting.file_id != file_id;
    let mut kept: Vec<Posting> = Vec::with_capacity(postings.len());
    let mut i: usize = 0;
    assert(postings@.take(0).filter(other) =~= Seq::<Posting>::empty()) by {
        reveal(Seq::filter);
    }
    while i < postings.len()
        invariant
            i <= postings@.len(),
            other == (|posting: Posting| posting.file_id != file_id),
            kept@ == postings@.take(i as int).filter(other),
        decreases postings@.len() - i,
    {
        let posting: Posting = postings[i];
        proof {
            reveal(Seq::filter);
            assert(postings@.take(i + 1).drop_last() =~= postings@.take(i as int));
            assert(postings@.take(i + 1).last() == posting);
        }
        if posting.file_id != file_id {
            kept.push(posting);
        }
        i += 1;
    }
    assert(postings@.take(i as int) =~= postings@);
    kept
}

// ---------------------------------------------------------------------------------------------
// Lists on disk
// ---------------------------------------------------------------------------------------------

/// One posting as it stands on disk.
pub open spec fn posting_bytes(posting: Posting) -> Seq<u8> {
    u32_bytes(posting.file_id) + seq![posting.next_mask, posting.loc_mask]
}

/// A posting list as it stands on disk.
pub open spec fn posting_list_bytes(postings: Seq<Posting>) -> Seq<u8>
    decreases postings.len(),
{
    if postings.len() == 0 {
        Seq::empty()
    } else {
        posting_list_bytes(postings.drop_last()) + posting_bytes(postings.last())
    }
}

/// The posting at position `i` of a list on disk.
pub open spec fn posting_at(bytes: Seq<u8>, i: int) -> Posting {
    Posting {
        file_id: u32_at(bytes, 6 * i),
        next_mask: bytes[6 * i + 4],
        loc_mask: bytes[6 * i + 5],
    }
}

/// The list that `bytes` hold; a trailing piece of a posting does not count.
pub open spec fn postings_of(bytes: Seq<u8>) -> Seq<Posting> {
    Seq::new(bytes.len() / 6, |i: int| posting_at(bytes, i))
}

pub fn push_posting(out: &mut Vec<u8>, posting: Posting)
    ensures
        final(out)@ == old(out)@ + posting_bytes(posting),
{
    write_u32(out, posting.file_id);
    out.push(posting.next_mask);
    out.push(posting.loc_mask);
    assert(out@ =~= old(out)@ + posting_bytes(posting));
}

pub fn decode_postings(bytes: &[u8]) -> (postings: Vec<Posting>)
    ensures
        postings@ == postings_of(bytes@),
{
    let count: usize = bytes.len() / POSTING_BYTES;
    let mut postings: Vec<Posting> = Vec::with_capacity(count);
    let mut i: usize = 0;
    while i < count
        invariant
            count == bytes@.len() / 6,
            bytes@.len() <= usize::MAX,
            i <= count,
            postings@ == postings_of(bytes@).take(i as int),
        decreases count - i,
    {
        let at: usize = i * 6;
        postings.push(
            Posting {
                file_id: read_u32(bytes, at),
                next_mask: bytes[at + 4],
                loc_mask: bytes[at + 5],
            },
        );
        i += 1;
        assert(postings@ =~= postings_of(bytes@).take(i as int));
    }
    assert(postings@ =~= postings_of(bytes@));
    postings
}

pub proof fn lemma_posting_list_len(postings: Seq<Posting>)
    ensures
        posting_list_bytes(postings).len() == 6 * postings.len(),
    decreases postings.len(),
{
    if postings.len() > 0 {
        lemma_posting_list_len(postings.drop_last());
        lemma_u32_round_trip(postings.last().file_id);
    }
}

/// A posting list read back from disk is the list that was written.
pub proof fn lemma_postings_survive_disk(postings: Seq<Posting>)
    ensures
        postings_of(posting_list_bytes(postings)) == postings,
    decreases postings.len(),
{
    let bytes = posting_list_bytes(postings);
    lemma_posting_list_len(postings);
    if postings.len() > 0 {
        let prev = postings.drop_last();
        let head = posting_list_bytes(prev);
        lemma_posting_list_len(prev);
        lemma_postings_survive_disk(prev);
        lemma_u32_round_trip(postings.last().file_id);
        assert forall|i: int| 0 <= i < postings.len() implies postings_of(bytes)[i]
            == postings[i] by {
            if i < prev.len() {
                assert(bytes.subrange(6 * i, 6 * i + 4) =~= head.subrange(6 * i, 6 * i + 4));
                assert(postings_of(head)[i] == prev[i]);
            } else {
                assert(bytes.subrange(6 * i, 6 * i + 4) =~= u32_bytes(postings[i].file_id));
                lemma_u32_at(bytes, 6 * i, postings[i].file_id);
            }
        }
    }
    assert(postings_of(bytes) =~= postings);
}

/// Lists one after the other.
pub proof fn lemma_posting_list_concat(left: Seq<Posting>, right: Seq<Posting>)
    ensures
        posting_list_bytes(left + right) == posting_list_bytes(left) + posting_list_bytes(right),
    decreases right.len(),
{
    if right.len() == 0 {
        assert(left + right =~= left);
        assert(posting_list_bytes(left) + posting_list_bytes(right) =~= posting_list_bytes(left));
    } else {
        lemma_posting_list_concat(left, right.drop_last());
        assert((left + right).drop_last() =~= left + right.drop_last());
        assert((left + right).last() == right.last());
        assert(posting_list_bytes(left + right) =~= posting_list_bytes(left) + posting_list_bytes(
            right,
        ));
    }
}

/// The posting lists of a cache file. The lists stay on disk: this is where they stand.
#[derive(Clone, Debug)]
pub struct BasePostings {
    pub postings_blob_start: u64,
    pub postings_blob_len: u64,
    pub lookup: Vec<LookupEntry>,
}

/// In the order of trigrams, each trigram once.
pub open spec fn ascending_lookup(lookup: Seq<LookupEntry>) -> bool {
    forall|i: int, j: int|
        0 <= i < j < lookup.len() ==> (#[trigger] lookup[i]).trigram < (
        #[trigger] lookup[j]).trigram
}

pub open spec fn lookup_holds(lookup: Seq<LookupEntry>, trigram: u32) -> bool {
    exists|i: int| 0 <= i < lookup.len() && (#[trigger] lookup[i]).trigram == trigram
}

/// The entry of `trigram`.
pub open spec fn entry_for(lookup: Seq<LookupEntry>, trigram: u32) -> Option<LookupEntry> {
    if lookup_holds(lookup, trigram) {
        Some(
            lookup[choose|i: int|
                0 <= i < lookup.len() && (#[trigger] lookup[i]).trigram == trigram],
        )
    } else {
        None
    }
}

/// A piece of the cache file to read.
#[derive(Clone, Copy, Debug, PartialEq, Eq, Structural)]
pub struct ReadRequest {
    pub trigram: u32,
    pub offset: u64,
    pub len: usize,
}

/// Why a posting list cannot be read.
#[derive(Clone, Copy, Debug, PartialEq, Eq, Structural)]
pub enum PostingReadError {
    TooLarge,
    OffsetOverflow,
    ExceedsBlob,
}

/// The posting list of `entry` lies within the blob and can be addressed.
pub open spec fn readable(base: BasePostings, entry: LookupEntry) -> bool {
    &&& entry.count * 6 <= usize::MAX
    &&& base.postings_blob_start + entry.offset <= u64::MAX
    &&& entry.offset + entry.count * 6 <= base.postings_blob_len
}

impl View for BasePostings {
    type V = (u64, u64, Seq<LookupEntry>);

    open spec fn view(&self) -> (u64, u64, Seq<LookupEntry>) {
        (self.postings_blob_start, self.postings_blob_len, self.lookup@)
    }
}

pub open spec fn base_view(base: Option<BasePostings>) -> Option<(u64, u64, Seq<LookupEntry>)> {
    match base {
        Some(base) => Some(base@),
        None => None,
    }
}

impl BasePostings {
    pub open spec fn well_formed(&self) -> bool {
        ascending_lookup(self.lookup@)
    }

    pub fn duplicate(&self) -> (copy: BasePostings)
        ensures
            copy@ == self@,
    {
        let lookup = self.lookup.clone();
        assert(lookup@ =~= self.lookup@);
        BasePostings {
            postings_blob_start: self.postings_blob_start,
            postings_blob_len: self.postings_blob_len,
            lookup,
        }
    }

    pub fn lookup_entry(&self, trigram: u32) -> (entry: Option<LookupEntry>)
        requires
            self.well_formed(),
        ensures
            entry == entry_for(self.lookup@, trigram),
    {
        let mut low: usize = 0;
        let mut high: usize = self.lookup.len();
        while low < high
            invariant
                ascending_lookup(self.lookup@),
                low <= high <= self.lookup@.len(),
                forall|i: int| 0 <= i < low ==> (#[trigger] self.lookup@[i]).trigram < trigram,
                forall|i: int|
                    high <= i < self.lookup@.len() ==> (#[trigger] self.lookup@[i]).trigram
                        > trigram,
            decreases high - low,
        {
            let mid: usize = low + (high - low) / 2;
            let entry: LookupEntry = self.lookup[mid];
            if entry.trigram == trigram {
                proof {
                    let i = choose|i: int|
                        0 <= i < self.lookup@.len() && (#[trigger] self.lookup@[i]).trigram
                            == trigram;
                    assert(self.lookup@[mid as int].trigram == trigram);
                    assert(i == mid);
                }
                return Some(entry);
            }
            if entry.trigram < trigram {
                low = mid + 1;
            } else {
                high = mid;
            }
        }
        None
    }

    /// The piece of the file that holds the posting list of `entry`.
    pub fn read_request(&self, entry: LookupEntry) -> (request: Result<
        ReadRequest,
        PostingReadError,
    >)
        ensures
            match request {
                Ok(request) => readable(*self, entry) && request == (ReadRequest {
                    trigram: entry.trigram,
                    offset: (self.postings_blob_start + entry.offset) as u64,
                    len: (entry.count * 6) as usize,
                }),
                Err(PostingReadError::TooLarge) => entry.count * 6 > usize::MAX,
                Err(PostingReadError::OffsetOverflow) => entry.count * 6 <= usize::MAX && (
                self.postings_blob_start + entry.offset > u64::MAX || entry.offset + entry.count * 6
                    > u64::MAX),
                Err(PostingReadError::ExceedsBlob) => {
                    &&& entry.count * 6 <= usize::MAX
                    &&& self.postings_blob_start + entry.offset <= u64::MAX
                    &&& entry.offset + entry.count * 6 <= u64::MAX
                    &&& entry.offset + entry.count * 6 > self.postings_blob_len
                },
            },
    {
        let len: u64 = entry.count as u64 * 6;
        if len > usize::MAX as u64 {
            return Err(PostingReadError::TooLarge);
        }
        let offset: u64 = match self.postings_blob_start.checked_add(entry.offset) {
            Some(offset) => offset,
            None => {
                return Err(PostingReadError::OffsetOverflow);
            },
        };
        let end: u64 = match entry.offset.checked_add(len) {
            Some(end) => end,
            None => {
                return Err(PostingReadError::OffsetOverflow);
            },
        };
        if end > self.postings_blob_len {
            return Err(PostingReadError::ExceedsBlob);
        }
        Ok(ReadRequest { trigram: entry.trigram, offset, len: len as usize })
    }
}

/// Posting lists that were read from disk, by trigram. A list that could not be read is absent.
pub struct PostingReads {
    pub lists: HashMap<u32, Vec<u8>>,
}

impl PostingReads {
    pub fn new() -> (reads: PostingReads)
        ensures
            reads.lists@ == Map::<u32, Vec<u8>>::empty(),
    {
        PostingReads { lists: HashMap::new() }
    }

    /// Records what was read for `trigram`.
    pub fn add_list(&mut self, trigram: u32, bytes: Vec<u8>)
        ensures
            final(self).lists@ == old(self).lists@.insert(trigram, bytes),
    {
        broadcast use vstd::std_specs::hash::group_hash_axioms;

        self.lists.insert(trigram, bytes);
    }

    /// The postings of `trigram` that stand on disk, as far as they were read.
    pub open spec fn base_list(
        &self,
        base: Option<(u64, u64, Seq<LookupEntry>)>,
        trigram: u32,
    ) -> Seq<Posting> {
        if base is Some && lookup_holds((base->0).2, trigram) && self.lists@.contains_key(trigram) {
            postings_of(self.lists@[trigram]@)
        } else {
            Seq::empty()
        }
    }

    /// The postings of `trigram` that stand on disk, as far as they were read.
    pub fn postings_on_disk(&self, base: &Option<BasePostings>, trigram: u32) -> (postings: Vec<
        Posting,
    >)
        requires
            base matches Some(base) ==> base.well_formed(),
        ensures
            postings@ == self.base_list(base_view(*base), trigram),
    {
        broadcast use vstd::std_specs::hash::group_hash_axioms;

        match base {
            Some(base) => {
                match (base.lookup_entry(trigram), self.lists.get(&trigram)) {
                    (Some(_), Some(bytes)) => decode_postings(bytes.as_slice()),
                    _ => Vec::new(),
                }
            },
            None => Vec::new(),
        }
    }
}

} // verus!
