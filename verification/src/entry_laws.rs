//! Laws of the small parts of an index: times, free slots, waits, and the number of trigrams.

use crate::file_entry::free_slot;
use crate::file_entry::time_at_most;
use crate::file_entry::Timestamp;
use crate::posting_laws::lemma_u32_by_bytes;
use crate::postings::holds_file;
use crate::postings::insertion_point;
use crate::postings::posting_at;
use crate::postings::postings_of;
use crate::postings::Posting;
use crate::snapshot::SnapshotView;
use crate::waiting::lock_wait;
use vstd::prelude::*;

verus! {

/// Times are ordered by their seconds and then by the rest, as numbers of nanoseconds are.
pub proof fn lemma_times_are_ordered(a: Timestamp, b: Timestamp)
    requires
        a.is_valid(),
        b.is_valid(),
    ensures
        time_at_most(a, b) <==> a.secs * 1_000_000_000 + a.nanos <= b.secs * 1_000_000_000 + b.nanos,
        a.nanos <= 999_999_999,
{
}

/// A free slot has no path, no size, no time and no hash.
pub proof fn lemma_free_slots_are_empty(i: int)
    requires
        0 <= i < 32,
    ensures
        free_slot().path.len() == 0,
        free_slot().size == 0,
        free_slot().modified.secs == 0 && free_slot().modified.nanos == 0,
        free_slot().content_hash.len() == 32,
        free_slot().content_hash[i] == 0,
{
}

/// A wait for a lock takes what is left, and at most a millisecond.
pub proof fn lemma_waits_are_short(left_nanos: u64)
    ensures
        lock_wait(left_nanos) <= left_nanos,
        lock_wait(left_nanos) <= 1_000_000,
        lock_wait(left_nanos) == left_nanos || lock_wait(left_nanos) == 1_000_000,
        left_nanos > 0 ==> lock_wait(left_nanos) > 0,
{
}

/// A list of postings is read six bytes at a time; what is left over is not read.
pub proof fn lemma_lists_are_read_six_bytes_at_a_time(bytes: Seq<u8>, i: int)
    requires
        0 <= i,
        6 * i + 6 <= bytes.len(),
    ensures
        6 * postings_of(bytes).len() <= bytes.len() < 6 * postings_of(bytes).len() + 6,
        postings_of(bytes)[i].file_id == bytes[6 * i] + 256 * bytes[6 * i + 1] + 65536 * bytes[6 * i
            + 2] + 16777216 * bytes[6 * i + 3],
        postings_of(bytes)[i].next_mask == bytes[6 * i + 4],
        postings_of(bytes)[i].loc_mask == bytes[6 * i + 5],
{
    lemma_u32_by_bytes(bytes, 6 * i);
    assert(postings_of(bytes)[i] == posting_at(bytes, i));
}

/// A posting goes behind those of all smaller files and before those of all others, so that a list in
/// ascending order stays in order where the file is new to it.
pub proof fn lemma_new_postings_keep_the_order(postings: Seq<Posting>, posting: Posting, at: int)
    requires
        insertion_point(postings, posting.file_id, at),
        !holds_file(postings, posting.file_id),
        forall|i: int, j: int|
            0 <= i < j < postings.len() ==> (#[trigger] postings[i]).file_id < (
            #[trigger] postings[j]).file_id,
    ensures
        ({
            let longer = postings.insert(at, posting);
            &&& longer.len() == postings.len() + 1
            &&& longer.contains(posting)
            &&& forall|i: int, j: int|
                0 <= i < j < longer.len() ==> (#[trigger] longer[i]).file_id < (
                #[trigger] longer[j]).file_id
        }),
{
    let longer = postings.insert(at, posting);
    assert(longer[at] == posting);
    assert forall|i: int, j: int| 0 <= i < j < longer.len() implies (#[trigger] longer[i]).file_id < (
    #[trigger] longer[j]).file_id by {
        if i < at {
            assert(longer[i] == postings[i]);
        } else if i > at {
            assert(longer[i] == postings[i - 1]);
        }
        if j < at {
            assert(longer[j] == postings[j]);
        } else if j > at {
            assert(longer[j] == postings[j - 1]);
        }
    }
}

/// A trigram counts once, whether it stands in the cache file, in the changes, or in both.
pub proof fn lemma_trigrams_count_once(view: SnapshotView, trigram: u32)
    ensures
        view.new_trigrams().contains(trigram) <==> view.postings.contains_key(trigram) && (
        view.base is None || forall|k: int|
            0 <= k < (view.base->0).2.len() ==> (#[trigger] (view.base->0).2[k]).trigram != trigram),
        view.base is None ==> view.trigram_total() == view.new_trigrams().len(),
        view.base is Some ==> view.trigram_total() == view.new_trigrams().len() + (
        view.base->0).2.len(),
{
}

} // verus!
