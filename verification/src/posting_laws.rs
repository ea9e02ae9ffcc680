//! Laws of postings: which files a trigram leads to, and which files a query leads to.

use crate::postings::entry_for;
use crate::postings::lookup_holds;
use crate::postings::passes_filter;
use crate::postings::LookupEntry;
use crate::postings::Posting;
use crate::postings::PostingReads;
use crate::query::RegexQuery;
use crate::snapshot::SnapshotView;
use crate::trigram::PostingFilter;
use vstd::prelude::*;

verus! {

/// A posting stands in the list of a trigram, in the cache file or among the changes since.
pub open spec fn stands_in_list(
    view: SnapshotView,
    reads: PostingReads,
    trigram: u32,
    posting: Posting,
) -> bool {
    ||| view.postings.contains_key(trigram) && view.postings[trigram].contains(posting)
    ||| reads.base_list(view.base, trigram).contains(posting)
}

/// A trigram leads to a file if and only if the file's slot holds a path, the file was not replaced,
/// and one of its postings stands in the list of the trigram. Where a mask is asked for, one of its
/// bits must be set in the posting too; a mask without bits asks for nothing.
pub proof fn lemma_trigrams_lead_to_files(
    view: SnapshotView,
    reads: PostingReads,
    trigram: u32,
    filter: Option<PostingFilter>,
    id: u32,
)
    ensures
        view.has_posting(reads, trigram, filter, id) <==> {
            &&& id < view.files.len()
            &&& view.files[id as int].path.len() > 0
            &&& !view.superseded.contains(id)
            &&& exists|posting: Posting|
                {
                    &&& #[trigger] stands_in_list(view, reads, trigram, posting)
                    &&& posting.file_id == id
                    &&& filter is None || filter->0.next_mask == 0 || posting.next_mask
                        & filter->0.next_mask != 0
                }
        },
{
    let old = reads.base_list(view.base, trigram);
    let new = view.list(trigram);
    if view.has_posting(reads, trigram, filter, id) {
        if exists|i: int|
            0 <= i < old.len() && (#[trigger] old[i]).file_id == id && passes_filter(
                old[i],
                filter,
            ) {
            let i = choose|i: int|
                0 <= i < old.len() && (#[trigger] old[i]).file_id == id && passes_filter(
                    old[i],
                    filter,
                );
            assert(old.contains(old[i]));
            assert(stands_in_list(view, reads, trigram, old[i]));
        } else {
            let i = choose|i: int|
                0 <= i < new.len() && (#[trigger] new[i]).file_id == id && passes_filter(
                    new[i],
                    filter,
                );
            assert(new.contains(new[i]));
            assert(stands_in_list(view, reads, trigram, new[i]));
        }
    }
    if exists|posting: Posting|
        {
            &&& #[trigger] stands_in_list(view, reads, trigram, posting)
            &&& posting.file_id == id
            &&& filter is None || filter->0.next_mask == 0 || posting.next_mask
                & filter->0.next_mask != 0
        } {
        let posting = choose|posting: Posting|
            {
                &&& #[trigger] stands_in_list(view, reads, trigram, posting)
                &&& posting.file_id == id
                &&& filter is None || filter->0.next_mask == 0 || posting.next_mask
                    & filter->0.next_mask != 0
            };
        if old.contains(posting) {
            let i = old.index_of(posting);
            assert(old[i] == posting);
        } else {
            let i = new.index_of(posting);
            assert(new[i] == posting);
        }
    }
}

/// The list of a trigram in the cache file has six bytes for each posting: the file's id, lowest byte
/// first, and the two masks. A trigram that the file has no entry for has no list.
pub proof fn lemma_lists_have_six_bytes_for_each_posting(
    base: Option<(u64, u64, Seq<LookupEntry>)>,
    reads: PostingReads,
    trigram: u32,
    i: int,
)
    requires
        base is Some,
        reads.lists@.contains_key(trigram),
        exists|k: int| 0 <= k < (base->0).2.len() && (#[trigger] (base->0).2[k]).trigram == trigram,
        0 <= i,
        6 * i + 6 <= reads.lists@[trigram]@.len(),
    ensures
        ({
            let bytes = reads.lists@[trigram]@;
            let list = reads.base_list(base, trigram);
            &&& list.len() == bytes.len() / 6
            &&& list[i].file_id == bytes[6 * i] + 256 * bytes[6 * i + 1] + 65536 * bytes[6 * i + 2]
                + 16777216 * bytes[6 * i + 3]
            &&& list[i].next_mask == bytes[6 * i + 4]
            &&& list[i].loc_mask == bytes[6 * i + 5]
        }),
{
    let bytes = reads.lists@[trigram]@;
    assert(lookup_holds((base->0).2, trigram));
    lemma_u32_by_bytes(bytes, 6 * i);
}

/// A number in four bytes, lowest byte first.
pub proof fn lemma_u32_by_bytes(bytes: Seq<u8>, at: int)
    requires
        0 <= at,
        at + 4 <= bytes.len(),
    ensures
        crate::codec::u32_at(bytes, at) == bytes[at] + 256 * bytes[at + 1] + 65536 * bytes[at + 2]
            + 16777216 * bytes[at + 3],
{
    let four = bytes.subrange(at, at + 4);
    reveal_with_fuel(crate::codec::le_value, 5);
    assert(four[0] == bytes[at] && four[1] == bytes[at + 1] && four[2] == bytes[at + 2] && four[3]
        == bytes[at + 3]);
}

/// A trigram without an entry in the cache file, or whose list was not read, has no list there.
pub proof fn lemma_unknown_trigrams_have_no_list(
    base: Option<(u64, u64, Seq<LookupEntry>)>,
    reads: PostingReads,
    trigram: u32,
)
    requires
        base is None || !reads.lists@.contains_key(trigram) || forall|k: int|
            0 <= k < (base->0).2.len() ==> (#[trigger] (base->0).2[k]).trigram != trigram,
    ensures
        reads.base_list(base, trigram).len() == 0,
{
}

/// A trigram has as many postings as its entry in the cache file says and as stand among the changes
/// since, as far as they can be counted.
pub proof fn lemma_postings_are_counted(view: SnapshotView, trigram: u32, entry: int)
    requires
        view.base matches Some(base) ==> {
            &&& forall|i: int, j: int|
                0 <= i < j < base.2.len() ==> (#[trigger] base.2[i]).trigram < (
                #[trigger] base.2[j]).trigram
            &&& -1 <= entry < base.2.len()
            &&& entry >= 0 ==> base.2[entry].trigram == trigram
            &&& entry < 0 ==> forall|i: int|
                0 <= i < base.2.len() ==> (#[trigger] base.2[i]).trigram != trigram
        },
    ensures
        ({
            let old = if view.base is Some && entry >= 0 {
                (view.base->0).2[entry].count as int
            } else {
                0
            };
            let new = if view.postings.contains_key(trigram) {
                view.postings[trigram].len() as int
            } else {
                0
            };
            view.posting_total(trigram) == (if old + new > usize::MAX {
                usize::MAX as int
            } else {
                old + new
            })
        }),
{
    if let Some(base) = view.base {
        if entry >= 0 {
            assert(lookup_holds(base.2, trigram));
            let k = choose|i: int|
                0 <= i < base.2.len() && (#[trigger] base.2[i]).trigram == trigram;
            assert(k == entry);
            assert(entry_for(base.2, trigram) == Some(base.2[entry]));
        } else {
            assert(!lookup_holds(base.2, trigram));
        }
    }
}

/// Trigram number `i` of group `g` of a query leads to a file.
pub open spec fn leads_from_group(
    view: SnapshotView,
    reads: PostingReads,
    query: RegexQuery,
    g: int,
    i: int,
    id: u32,
) -> bool {
    let trigram = query.or_groups@[g]@[i];
    &&& 0 <= i < query.or_groups@[g]@.len()
    &&& view.has_posting(
        reads,
        trigram,
        if g < query.or_filters@.len() && query.or_filters@[g]@.contains_key(trigram) {
            Some(query.or_filters@[g]@[trigram])
        } else {
            None
        },
        id,
    )
}

/// Some trigram of group `g` of a query leads to a file.
pub open spec fn some_leads_from_group(
    view: SnapshotView,
    reads: PostingReads,
    query: RegexQuery,
    g: int,
    id: u32,
) -> bool {
    exists|i: int| #[trigger] leads_from_group(view, reads, query, g, i, id)
}

/// Trigram number `i` that a query wants of every match leads to a file.
pub open spec fn leads_from_all(
    view: SnapshotView,
    reads: PostingReads,
    query: RegexQuery,
    i: int,
    id: u32,
) -> bool {
    let trigram = query.and_trigrams@[i];
    view.has_posting(
        reads,
        trigram,
        if query.and_filters@.contains_key(trigram) {
            Some(query.and_filters@[trigram])
        } else {
            None
        },
        id,
    )
}

/// A query leads to a file that is kept without postings, and to a file to which each of its trigrams
/// leads and one trigram of each of its groups. A query without trigrams leads to every file that a
/// path leads to. Nothing but a file that counts is led to.
pub proof fn lemma_queries_lead_to_files(
    view: SnapshotView,
    reads: PostingReads,
    query: RegexQuery,
    id: u32,
)
    ensures
        view.is_candidate(reads, query, id) ==> {
            &&& id < view.files.len()
            &&& view.files[id as int].path.len() > 0
            &&& !view.superseded.contains(id)
        },
        query.and_trigrams@.len() + query.or_groups@.len() > 0 && view.unindexed.contains(id)
            && id < view.files.len() && view.files[id as int].path.len() > 0
            && !view.superseded.contains(id) ==> view.is_candidate(reads, query, id),
        query.and_trigrams@.len() + query.or_groups@.len() == 0 ==> (view.is_candidate(
            reads,
            query,
            id,
        ) <==> view.active(id) && exists|path: crate::path::PathKey| #[trigger]
            view.ids.contains_key(path) && view.ids[path] == id),
        view.is_candidate(reads, query, id) && !view.unindexed.contains(id) ==> {
            &&& forall|i: int|
                0 <= i < query.and_trigrams@.len() ==> #[trigger] leads_from_all(
                    view,
                    reads,
                    query,
                    i,
                    id,
                )
            &&& forall|g: int|
                0 <= g < query.or_groups@.len() ==> #[trigger] some_leads_from_group(
                    view,
                    reads,
                    query,
                    g,
                    id,
                )
        },
{
    if view.is_candidate(reads, query, id) {
        if query.and_trigrams@.len() > 0 && !view.active(id) {
            assert(view.has_posting(
                reads,
                query.and_trigrams@[0],
                crate::snapshot::filter_for(query.and_filters@, query.and_trigrams@[0]),
                id,
            ));
        }
        if !view.unindexed.contains(id) {
            assert forall|i: int| 0 <= i < query.and_trigrams@.len() implies #[trigger] leads_from_all(
                view,
                reads,
                query,
                i,
                id,
            ) by {
                assert(view.has_posting(
                    reads,
                    query.and_trigrams@[i],
                    crate::snapshot::filter_for(query.and_filters@, query.and_trigrams@[i]),
                    id,
                ));
            }
            assert forall|g: int|
                0 <= g < query.or_groups@.len() implies #[trigger] some_leads_from_group(
                view,
                reads,
                query,
                g,
                id,
            ) by {
                assert(view.has_one_of(reads, query, g, id));
                let i = choose|i: int|
                    0 <= i < query.or_groups@[g]@.len() && view.has_posting(
                        reads,
                        #[trigger] query.or_groups@[g]@[i],
                        crate::snapshot::group_filter(query, g, query.or_groups@[g]@[i]),
                        id,
                    );
                assert(leads_from_group(view, reads, query, g, i, id));
            }
        }
    }
}

/// A file to which each trigram of a query leads and one trigram of each group is a candidate.
pub proof fn lemma_files_with_all_trigrams_are_candidates(
    view: SnapshotView,
    reads: PostingReads,
    query: RegexQuery,
    chosen: Seq<int>,
    id: u32,
)
    requires
        query.and_trigrams@.len() > 0 || (view.active(id) && view.listed(id)),
        chosen.len() == query.or_groups@.len(),
        forall|i: int|
            0 <= i < query.and_trigrams@.len() ==> #[trigger] leads_from_all(
                view,
                reads,
                query,
                i,
                id,
            ),
        forall|g: int|
            0 <= g < chosen.len() ==> leads_from_group(
                view,
                reads,
                query,
                g,
                #[trigger] chosen[g],
                id,
            ),
    ensures
        view.is_candidate(reads, query, id),
{
    assert forall|g: int| 0 <= g < query.or_groups@.len() implies #[trigger] view.has_one_of(
        reads,
        query,
        g,
        id,
    ) by {
        let i = chosen[g];
        assert(view.has_posting(
            reads,
            query.or_groups@[g]@[i],
            crate::snapshot::group_filter(query, g, query.or_groups@[g]@[i]),
            id,
        ));
    }
    assert(view.has_all(reads, query, id)) by {
        assert forall|i: int| 0 <= i < query.and_trigrams@.len() implies view.has_posting(
            reads,
            #[trigger] query.and_trigrams@[i],
            crate::snapshot::filter_for(query.and_filters@, query.and_trigrams@[i]),
            id,
        ) by {
            assert(leads_from_all(view, reads, query, i, id));
        }
    }
}

} // verus!
