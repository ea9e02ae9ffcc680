//! What an index notes down about its changes since the cache file was written: the trigrams of each
//! changed file, what their postings take up, and whether a compaction is asked for.

use crate::index::compaction_after;
use crate::index::lemma_lists_without_done;
use crate::index::lemma_without_absent_file;
use crate::index::lemma_without_file_members;
use crate::index::lemma_without_keeps_others;
use crate::index::lists_without;
use crate::index::lists_without_in;
use crate::index::packed_bytes;
use crate::index::saturated;
use crate::index::table_key;
use crate::index::CompactionView;
use crate::index::SearchIndex;
use crate::order::strictly_ascending;
use crate::path::PathKey;
use crate::postings::ascending_postings;
use crate::postings::holds_file;
use crate::postings::without_file;
use crate::postings::Posting;
use crate::snapshot::list_views;
use crate::tally::lemma_total_of_change;
use crate::tally::lengths;
use crate::tally::total;
use crate::trigram::PostingFilter;
use vstd::prelude::*;

verus! {

#[verifier::ext_equal]
pub struct Ledger {
    /// Per changed file, its trigrams.
    pub file_trigrams: Map<u32, Seq<u32>>,
    /// What the postings of the changed files take up.
    pub packed_bytes: int,
    pub compaction: CompactionView,
}

pub open spec fn trigram_views(file_trigrams: Map<u32, Vec<u32>>) -> Map<u32, Seq<u32>> {
    file_trigrams.map_values(|trigrams: Vec<u32>| trigrams@)
}

impl SearchIndex {
    pub open spec fn ledger(&self) -> Ledger {
        Ledger {
            file_trigrams: trigram_views(self.delta_file_trigrams@),
            packed_bytes: self.delta_packed_bytes as int,
            compaction: self.compaction@,
        }
    }
}

pub open spec fn lists_keys(keys: Seq<u32>, filters: Map<u32, PostingFilter>) -> bool {
    &&& strictly_ascending(keys)
    &&& forall|t: u32| #[trigger] keys.contains(t) <==> filters.contains_key(t)
}

/// The trigrams of a file below `bound`, ascending.
pub open spec fn keys_below(filters: Map<u32, PostingFilter>, bound: nat) -> Seq<u32>
    decreases bound,
{
    if bound == 0 {
        Seq::empty()
    } else {
        let key = (bound - 1) as u32;
        let lower = keys_below(filters, (bound - 1) as nat);
        if filters.contains_key(key) {
            lower.push(key)
        } else {
            lower
        }
    }
}

/// The trigrams of a file, ascending.
pub open spec fn key_list(filters: Map<u32, PostingFilter>) -> Seq<u32> {
    keys_below(filters, 0x1_0000_0000)
}

proof fn lemma_keys_below(filters: Map<u32, PostingFilter>, bound: nat)
    requires
        bound <= 0x1_0000_0000,
    ensures
        strictly_ascending(keys_below(filters, bound)),
        forall|t: u32| #[trigger]
            keys_below(filters, bound).contains(t) <==> filters.contains_key(t) && t < bound,
    decreases bound,
{
    if bound > 0 {
        let lower = keys_below(filters, (bound - 1) as nat);
        let keys = keys_below(filters, bound);
        let key = (bound - 1) as u32;
        lemma_keys_below(filters, (bound - 1) as nat);
        assert forall|t: u32| #[trigger] keys.contains(t) <==> filters.contains_key(t) && t
            < bound by {
            if lower.contains(t) {
                assert(keys[lower.index_of(t)] == t);
            }
            if keys.contains(t) && t != key {
                assert(lower[keys.index_of(t)] == t);
            }
            if filters.contains_key(key) {
                assert(keys[lower.len() as int] == key);
            }
        }
        assert forall|i: int, j: int| 0 <= i < j < keys.len() implies #[trigger] keys[i]
            < #[trigger] keys[j] by {
            assert(keys[i] == lower[i]);
            if j < lower.len() {
                assert(keys[j] == lower[j]);
            } else {
                assert(lower.contains(lower[i]));
            }
        }
    }
}

/// The list has each trigram once.
pub proof fn lemma_key_list(filters: Map<u32, PostingFilter>)
    ensures
        lists_keys(key_list(filters), filters),
        filters.dom().finite(),
        key_list(filters).len() == filters.len(),
{
    let keys = key_list(filters);
    lemma_keys_below(filters, 0x1_0000_0000);
    assert(keys.no_duplicates());
    keys.unique_seq_to_set();
    assert(keys.to_set() =~= filters.dom());
}

/// With one more file, under `id`.
pub open spec fn ledger_with(
    ledger: Ledger,
    id: u32,
    path: PathKey,
    filters: Map<u32, PostingFilter>,
) -> Ledger {
    let file_trigrams = ledger.file_trigrams.insert(id, key_list(filters));
    let packed = saturated(ledger.packed_bytes + packed_bytes(filters.len() as int));
    Ledger {
        file_trigrams,
        packed_bytes: packed,
        compaction: compaction_after(
            ledger.compaction,
            path,
            file_trigrams.len() as int,
            packed,
        ),
    }
}

/// Without the file that the table `ids` has under `path` or `canonical_path`, if it has one.
pub open spec fn ledger_without(
    ledger: Ledger,
    ids: Map<PathKey, u32>,
    path: PathKey,
    canonical_path: PathKey,
) -> Ledger {
    match table_key(ids, path, canonical_path) {
        None => ledger,
        Some(key) => {
            let id = ids[key];
            let recorded = if ledger.file_trigrams.contains_key(id) {
                packed_bytes(ledger.file_trigrams[id].len() as int)
            } else {
                0
            };
            let file_trigrams = ledger.file_trigrams.remove(id);
            let packed = if recorded > ledger.packed_bytes {
                0
            } else {
                ledger.packed_bytes - recorded
            };
            Ledger {
                file_trigrams,
                packed_bytes: packed,
                compaction: compaction_after(
                    ledger.compaction,
                    path,
                    file_trigrams.len() as int,
                    packed,
                ),
            }
        },
    }
}

/// The bytes are those of the trigrams that are noted down, six for each.
pub open spec fn in_step(ledger: Ledger) -> bool {
    ledger.packed_bytes == 6 * total(lengths(ledger.file_trigrams))
}

/// An index that is new, was loaded, or took a written cache file into use has nothing noted down,
/// and its bytes are in step.
pub proof fn lemma_settled_is_in_step(index: SearchIndex)
    requires
        index.delta_file_trigrams@ == Map::<u32, Vec<u32>>::empty(),
        index.delta_packed_bytes == 0,
    ensures
        in_step(index.ledger()),
{
    assert(lengths(index.ledger().file_trigrams).dom() =~= Set::<u32>::empty());
}

/// A change leaves the bytes in step, as long as they can be told.
pub open spec fn stays_in_step(before: Ledger, after: Ledger) -> bool {
    in_step(before) && 6 * total(lengths(after.file_trigrams)) <= usize::MAX ==> in_step(after)
}

/// One more file adds its trigrams, and leaves the bytes in step as long as they can be told.
pub proof fn lemma_addition_stays_in_step(
    ledger: Ledger,
    id: u32,
    path: PathKey,
    filters: Map<u32, PostingFilter>,
)
    requires
        ledger.file_trigrams.dom().finite(),
        !ledger.file_trigrams.contains_key(id),
    ensures
        stays_in_step(ledger, ledger_with(ledger, id, path, filters)),
        total(lengths(ledger_with(ledger, id, path, filters).file_trigrams)) == total(
            lengths(ledger.file_trigrams),
        ) + filters.len(),
{
    let after = ledger_with(ledger, id, path, filters);
    lemma_key_list(filters);
    assert(after.file_trigrams.remove(id) =~= ledger.file_trigrams);
    assert(ledger.file_trigrams.remove(id) =~= ledger.file_trigrams);
    lemma_total_of_change(ledger.file_trigrams, after.file_trigrams, id);
}

/// Taking a file out leaves the bytes in step.
pub proof fn lemma_removal_stays_in_step(
    ledger: Ledger,
    ids: Map<PathKey, u32>,
    path: PathKey,
    canonical_path: PathKey,
)
    requires
        in_step(ledger),
        ledger.file_trigrams.dom().finite(),
        ledger.packed_bytes <= usize::MAX,
    ensures
        in_step(ledger_without(ledger, ids, path, canonical_path)),
{
    if let Some(key) = table_key(ids, path, canonical_path) {
        let id = ids[key];
        let after = ledger.file_trigrams.remove(id);
        assert(after.remove(id) =~= after);
        lemma_total_of_change(ledger.file_trigrams, after, id);
        assert(!after.contains_key(id));
    }
}

// ---------------------------------------------------------------------------------------------
// Trigrams of files and postings of trigrams
// ---------------------------------------------------------------------------------------------

/// Each posting is of a file that has the trigram noted down, each noted trigram has its posting,
/// and no list is empty or names a file twice.
spec fn matched(lists: Map<u32, Seq<Posting>>, files: Map<u32, Seq<u32>>) -> bool {
    &&& forall|t: u32| #[trigger]
        lists.contains_key(t) ==> lists[t].len() > 0 && ascending_postings(lists[t])
    &&& forall|t: u32, k: int|
        #![trigger lists[t][k]]
        lists.contains_key(t) && 0 <= k < lists[t].len() ==> files.contains_key(
            lists[t][k].file_id,
        ) && files[lists[t][k].file_id].contains(t)
    &&& forall|id: u32| #[trigger] files.contains_key(id) ==> strictly_ascending(files[id])
    &&& forall|id: u32, k: int|
        #![trigger files[id][k]]
        files.contains_key(id) && 0 <= k < files[id].len() ==> lists.contains_key(files[id][k])
            && holds_file(lists[files[id][k]], id)
}

proof fn lemma_without_is_shorter(postings: Seq<Posting>, id: u32)
    requires
        ascending_postings(postings),
        holds_file(postings, id),
    ensures
        without_file(postings, id).len() == postings.len() - 1,
    decreases postings.len(),
{
    reveal(Seq::filter);
    let prev = postings.drop_last();
    assert forall|i: int, j: int| 0 <= i < j < prev.len() implies (#[trigger] prev[i]).file_id < (
    #[trigger] prev[j]).file_id by {
        assert(prev[i] == postings[i] && prev[j] == postings[j]);
    }
    if postings.last().file_id == id {
        assert forall|i: int| 0 <= i < prev.len() implies (#[trigger] prev[i]).file_id != id by {
            assert(prev[i] == postings[i]);
            assert(postings[i].file_id < postings[postings.len() - 1].file_id);
        }
        lemma_without_absent_file(prev, id);
    } else {
        let k = choose|k: int| 0 <= k < postings.len() && (#[trigger] postings[k]).file_id == id;
        assert(prev[k] == postings[k]);
        lemma_without_is_shorter(prev, id);
    }
}

/// Taking a file out of the lists of `count` of its trigrams takes out as many postings.
proof fn lemma_total_without(
    lists: Map<u32, Seq<Posting>>,
    id: u32,
    trigrams: Seq<u32>,
    count: int,
)
    requires
        lists.dom().finite(),
        strictly_ascending(trigrams),
        forall|k: int|
            0 <= k < trigrams.len() ==> lists.contains_key(#[trigger] trigrams[k]) && holds_file(
                lists[trigrams[k]],
                id,
            ),
        forall|t: u32| #[trigger]
            lists.contains_key(t) ==> lists[t].len() > 0 && ascending_postings(lists[t]),
        0 <= count <= trigrams.len(),
    ensures
        lists_without_in(lists, id, trigrams.take(count)).dom().finite(),
        total(lengths(lists_without_in(lists, id, trigrams.take(count)))) + count == total(
            lengths(lists),
        ),
    decreases count,
{
    let done = trigrams.take(count);
    if count == 0 {
        assert(lists_without_in(lists, id, done) =~= lists);
    } else {
        lemma_total_without(lists, id, trigrams, count - 1);
        let prev = trigrams.take(count - 1);
        let t = trigrams[count - 1];
        let before = lists_without_in(lists, id, prev);
        let after = lists_without_in(lists, id, done);
        assert(!prev.contains(t)) by {
            if prev.contains(t) {
                let k = prev.index_of(t);
                assert(trigrams[k] < trigrams[count - 1]);
            }
        }
        assert forall|u: u32| done.contains(u) <==> prev.contains(u) || u == t by {
            if prev.contains(u) {
                assert(done[prev.index_of(u)] == u);
            }
            assert(done[count - 1] == t);
            if done.contains(u) && u != t {
                assert(prev[done.index_of(u)] == u);
            }
        }
        assert(before.remove(t) =~= after.remove(t));
        lemma_total_of_change(before, after, t);
        lemma_without_is_shorter(lists[t], id);
        assert(before.contains_key(t) && before[t] == lists[t]);
    }
}

/// There are as many postings as trigrams noted down.
proof fn lemma_matched_totals(lists: Map<u32, Seq<Posting>>, files: Map<u32, Seq<u32>>)
    requires
        matched(lists, files),
        lists.dom().finite(),
        files.dom().finite(),
    ensures
        total(lengths(lists)) == total(lengths(files)),
    decreases files.dom().len(),
{
    if files.dom().len() == 0 {
        assert(lists.dom() =~= Set::<u32>::empty()) by {
            assert forall|t: u32| !lists.dom().contains(t) by {
                if lists.contains_key(t) {
                    assert(files.contains_key(lists[t][0].file_id));
                    assert(files.dom().contains(lists[t][0].file_id));
                }
            }
        }
        assert(lengths(lists).dom() =~= Set::<u32>::empty());
        assert(lengths(files).dom() =~= files.dom());
    } else {
        let id = files.dom().choose();
        assert(files.contains_key(id));
        let trigrams = files[id];
        let rest = files.remove(id);
        let left = lists_without(lists, id);
        assert(rest.remove(id) =~= rest);
        lemma_total_of_change(files, rest, id);
        assert forall|k: int| 0 <= k < trigrams.len() implies lists.contains_key(
            #[trigger] trigrams[k],
        ) && holds_file(lists[trigrams[k]], id) by {
            assert(files[id][k] == trigrams[k]);
        }
        lemma_total_without(lists, id, trigrams, trigrams.len() as int);
        assert(trigrams.take(trigrams.len() as int) =~= trigrams);
        assert forall|t: u32| lists.contains_key(t) && !trigrams.contains(t) implies !holds_file(
            #[trigger] lists[t],
            id,
        ) by {
            if holds_file(lists[t], id) {
                let k = choose|k: int|
                    0 <= k < lists[t].len() && (#[trigger] lists[t][k]).file_id == id;
                assert(files[lists[t][k].file_id].contains(t));
            }
        }
        lemma_lists_without_done(lists, id, trigrams);
        lemma_matched_without(lists, files, id);
        assert(rest.dom() =~= files.dom().remove(id));
        lemma_matched_totals(left, rest);
    }
}

proof fn lemma_matched_without(
    lists: Map<u32, Seq<Posting>>,
    files: Map<u32, Seq<u32>>,
    gone: u32,
)
    requires
        matched(lists, files),
    ensures
        matched(lists_without(lists, gone), files.remove(gone)),
{
    let left = lists_without(lists, gone);
    let rest = files.remove(gone);
    assert forall|t: u32| #[trigger] left.contains_key(t) implies left[t].len() > 0
        && ascending_postings(left[t]) by {
        lemma_without_file_members(lists[t], gone);
    }
    assert forall|t: u32, k: int|
        #![trigger left[t][k]]
        left.contains_key(t) && 0 <= k < left[t].len() implies rest.contains_key(
        left[t][k].file_id,
    ) && rest[left[t][k].file_id].contains(t) by {
        lemma_without_file_members(lists[t], gone);
        let m = lists[t].index_of(left[t][k]);
        assert(lists[t][m] == left[t][k]);
    }
    assert forall|id: u32, k: int|
        #![trigger rest[id][k]]
        rest.contains_key(id) && 0 <= k < rest[id].len() implies left.contains_key(rest[id][k])
        && holds_file(left[rest[id][k]], id) by {
        assert(files.contains_key(id));
        let t = files[id][k];
        let m = choose|m: int| 0 <= m < lists[t].len() && (#[trigger] lists[t][m]).file_id == id;
        lemma_without_keeps_others(lists[t], gone, m);
        let kept = without_file(lists[t], gone);
        assert(kept[kept.index_of(lists[t][m])].file_id == id);
    }
}

/// There are as many postings since the cache file was written as trigrams noted down for the
/// changed files.
pub proof fn lemma_postings_are_noted(index: SearchIndex)
    requires
        index.well_formed(),
    ensures
        total(lengths(index.current@.postings)) == total(lengths(index.ledger().file_trigrams)),
{
    broadcast use vstd::std_specs::hash::group_hash_axioms;

    let lists = list_views(index.current.delta.postings@);
    let files = index.ledger().file_trigrams;
    assert(lists.dom() =~= index.current.delta.postings@.dom());
    assert(files.dom() =~= index.delta_file_trigrams@.dom());
    assert forall|t: u32| #[trigger] lists.contains_key(t) implies lists[t].len() > 0
        && ascending_postings(lists[t]) by {
        assert(index.current.delta.postings@.contains_key(t));
    }
    assert forall|t: u32, k: int|
        #![trigger lists[t][k]]
        lists.contains_key(t) && 0 <= k < lists[t].len() implies files.contains_key(
        lists[t][k].file_id,
    ) && files[lists[t][k].file_id].contains(t) by {
        assert(index.current.delta.postings@[t]@[k] == lists[t][k]);
    }
    assert forall|id: u32, k: int|
        #![trigger files[id][k]]
        files.contains_key(id) && 0 <= k < files[id].len() implies lists.contains_key(files[id][k])
        && holds_file(lists[files[id][k]], id) by {
        assert(index.delta_file_trigrams@.contains_key(id));
        assert(index.delta_file_trigrams@[id]@[k] == files[id][k]);
    }
    lemma_matched_totals(lists, files);
}

/// Where the bytes are in step they are six for each posting since the cache file was written.
pub proof fn lemma_packed_bytes_count_postings(index: SearchIndex)
    requires
        index.well_formed(),
        in_step(index.ledger()),
    ensures
        index.delta_packed_bytes == 6 * total(lengths(index.current@.postings)),
{
    lemma_postings_are_noted(index);
}

} // verus!
